//! A whole log read at once: its lines, the sessions they pair into grouped
//! by task, totals and summaries, and what starting a new task appends.
use crate::entry::{
    first_bad_line, first_bad_pair, interval_duration, line_error, line_model, line_view, lines_read,
    pair_error, pair_up, paired_entry,
    parse_entry_lines, valid_interval, Entry, EntryKind, EntryLine, Interval,
};
use crate::error::ParseError;
use itertools::Itertools;
use crate::summary::{lemma_sorted_keeps_sum, rows_sum, sorted_by_duration, sorted_permutation_of};
use crate::text::{lines_of, lowercase, spec_lowercase, split_lines, string_views};
use crate::time::{valid_time, MAX_DELTA, NANOS_PER_SECOND};
use vstd::prelude::*;

verus! {

/// Why no new session can be started.
#[derive(Debug, Clone, Copy, PartialEq, Eq, Structural)]
pub enum StartError {
    /// The description is empty.
    MissingDescription,
    /// The open session started at or after the requested time.
    EndBeforeStart,
}

impl StartError {
    /// The human-readable message of the error.
    pub fn message(&self) -> (r: &'static str)
        ensures
            r@ == (match self {
                StartError::MissingDescription => "Must specify description"@,
                StartError::EndBeforeStart => "end time is before start time"@,
            }),
    {
        match self {
            StartError::MissingDescription => "Must specify description",
            StartError::EndBeforeStart => "end time is before start time",
        }
    }
}

/// Intervals of the sessions of task `d`, in log order.
pub open spec fn intervals_of(entries: Seq<Entry>, d: Seq<char>) -> Seq<Interval>
    decreases entries.len(),
{
    if entries.len() == 0 {
        Seq::empty()
    } else {
        let r = intervals_of(entries.drop_last(), d);
        if entries.last().desc@ == d {
            r.push(entries.last().interval)
        } else {
            r
        }
    }
}

/// Some group has task `d`.
pub open spec fn has_group(groups: Seq<(String, Vec<Interval>)>, d: Seq<char>) -> bool {
    exists|i: int| 0 <= i < groups.len() && (#[trigger] groups[i]).0@ == d
}

/// Some session has task `d`.
pub open spec fn has_task(entries: Seq<Entry>, d: Seq<char>) -> bool {
    exists|j: int| 0 <= j < entries.len() && (#[trigger] entries[j]).desc@ == d
}

/// `groups` holds, once per task, the intervals of that task's sessions.
pub open spec fn groups_match(groups: Seq<(String, Vec<Interval>)>, entries: Seq<Entry>) -> bool {
    &&& forall|i: int, j: int|
        0 <= i < j < groups.len() ==> (#[trigger] groups[i]).0@ != (#[trigger] groups[j]).0@
    &&& forall|i: int|
        0 <= i < groups.len() ==> (#[trigger] groups[i]).1@ == intervals_of(entries, groups[i].0@)
    &&& forall|d: Seq<char>| #[trigger] has_group(groups, d) <==> has_task(entries, d)
}

/// The sessions that consecutive line pairs describe.
pub open spec fn pairs_of(lines: Seq<EntryLine>) -> Seq<Entry> {
    Seq::new(
        (lines.len() / 2) as nat,
        |k: int| paired_entry(lines[2 * k], lines[2 * k + 1]),
    )
}

/// Sum of the lengths of closed intervals.
pub open spec fn intervals_total(ivs: Seq<Interval>) -> int
    decreases ivs.len(),
{
    if ivs.len() == 0 {
        0
    } else {
        intervals_total(ivs.drop_last()) + interval_duration(ivs.last())
    }
}

/// Sum over the groups of their intervals' lengths.
pub open spec fn groups_total(groups: Seq<(String, Vec<Interval>)>) -> int
    decreases groups.len(),
{
    if groups.len() == 0 {
        0
    } else {
        groups_total(groups.drop_last()) + intervals_total(groups.last().1@)
    }
}

/// Every task's total is at most the longest duration.
pub open spec fn group_totals_fit(groups: Seq<(String, Vec<Interval>)>) -> bool {
    forall|i: int| 0 <= i < groups.len() ==> intervals_total(#[trigger] groups[i].1@) <= MAX_DELTA
}

/// One `(task, total)` row per group, in group order.
pub open spec fn group_rows(groups: Seq<(String, Vec<Interval>)>) -> Seq<(String, i128)> {
    Seq::new(groups.len(), |i: int| (groups[i].0, intervals_total(groups[i].1@) as i128))
}

/// Every interval of the sequence is closed, forward and representable.
pub open spec fn forward_intervals(ivs: Seq<Interval>) -> bool {
    forall|k: int|
        0 <= k < ivs.len() ==> (#[trigger] ivs[k]).end is Some && valid_interval(ivs[k])
            && interval_duration(ivs[k]) >= 0
}

/// The running sums of forward intervals rise from zero to their total.
proof fn lemma_forward_prefix(ivs: Seq<Interval>, k: int)
    requires
        forward_intervals(ivs),
        0 <= k <= ivs.len(),
    ensures
        0 <= intervals_total(ivs.take(k)) <= intervals_total(ivs),
    decreases ivs.len() - k,
{
    assert(forward_intervals(ivs.take(k))) by {
        assert forall|j: int| 0 <= j < ivs.take(k).len() implies ivs.take(k)[j] == ivs[j] by {}
    }
    lemma_forward_nonneg(ivs.take(k));
    if k < ivs.len() {
        lemma_forward_prefix(ivs, k + 1);
        assert(ivs.take(k + 1).drop_last() =~= ivs.take(k));
        assert(ivs.take(k + 1).last() == ivs[k]);
    } else {
        assert(ivs.take(k) =~= ivs);
        lemma_forward_nonneg(ivs);
    }
}

proof fn lemma_forward_nonneg(ivs: Seq<Interval>)
    requires
        forward_intervals(ivs),
    ensures
        intervals_total(ivs) >= 0,
    decreases ivs.len(),
{
    if ivs.len() > 0 {
        assert(forward_intervals(ivs.drop_last())) by {
            assert forall|k: int| 0 <= k < ivs.drop_last().len() implies ivs.drop_last()[k] == ivs[k] by {}
        }
        lemma_forward_nonneg(ivs.drop_last());
        assert(ivs.last() == ivs[ivs.len() - 1]);
    }
}

/// The running sums over groups of forward intervals rise from zero to
/// their total, and each group's total is within it.
proof fn lemma_groups_prefix(groups: Seq<(String, Vec<Interval>)>, k: int)
    requires
        groups_closed(groups),
        0 <= k <= groups.len(),
    ensures
        0 <= groups_total(groups.take(k)) <= groups_total(groups),
        forall|i: int| 0 <= i < groups.len() ==> 0 <= #[trigger] intervals_total(groups[i].1@),
    decreases groups.len() - k,
{
    assert forall|i: int| 0 <= i < groups.len() implies 0 <= #[trigger] intervals_total(groups[i].1@) by {
        assert(forward_intervals(groups[i].1@));
        lemma_forward_nonneg(groups[i].1@);
    }
    assert(groups_closed(groups.take(k))) by {
        assert forall|j: int| 0 <= j < groups.take(k).len() implies groups.take(k)[j] == groups[j] by {}
    }
    lemma_groups_nonneg(groups.take(k));
    if k < groups.len() {
        lemma_groups_prefix(groups, k + 1);
        assert(groups.take(k + 1).drop_last() =~= groups.take(k));
        assert(groups.take(k + 1).last() == groups[k]);
    } else {
        assert(groups.take(k) =~= groups);
        lemma_groups_nonneg(groups);
    }
}

proof fn lemma_groups_nonneg(groups: Seq<(String, Vec<Interval>)>)
    requires
        groups_closed(groups),
    ensures
        groups_total(groups) >= 0,
    decreases groups.len(),
{
    if groups.len() > 0 {
        assert(groups_closed(groups.drop_last())) by {
            assert forall|i: int| 0 <= i < groups.drop_last().len() implies groups.drop_last()[i]
                == groups[i] by {}
        }
        lemma_groups_nonneg(groups.drop_last());
        assert(groups.last() == groups[groups.len() - 1]);
        assert(forward_intervals(groups.last().1@));
        lemma_forward_nonneg(groups.last().1@);
    }
}

/// Sum of the lengths of closed, forward, valid intervals.
fn sum_intervals(ivs: &Vec<Interval>) -> (r: i128)
    requires
        forward_intervals(ivs@),
        intervals_total(ivs@) <= MAX_DELTA,
    ensures
        r == intervals_total(ivs@),
{
    let mut total: i128 = 0;
    let mut i: usize = 0;
    while i < ivs.len()
        invariant
            i <= ivs@.len(),
            forward_intervals(ivs@),
            intervals_total(ivs@) <= MAX_DELTA,
            total == intervals_total(ivs@.take(i as int)),
        decreases ivs@.len() - i,
    {
        proof {
            lemma_forward_prefix(ivs@, i + 1);
            assert(ivs@.take(i + 1).drop_last() =~= ivs@.take(i as int));
            assert(ivs@.take(i + 1).last() == ivs@[i as int]);
        }
        let d = ivs[i].duration();
        total = total + d;
        i = i + 1;
    }
    assert(ivs@.take(ivs@.len() as int) =~= ivs@);
    total
}

/// Index of the group of task `d`, if there is one.
fn find_group(groups: &Vec<(String, Vec<Interval>)>, d: &String) -> (r: Option<usize>)
    ensures
        match r {
            Some(i) => i < groups@.len() && groups@[i as int].0@ == d@,
            None => !has_group(groups@, d@),
        },
{
    let mut i: usize = 0;
    while i < groups.len()
        invariant
            i <= groups@.len(),
            forall|j: int| 0 <= j < i ==> (#[trigger] groups@[j]).0@ != d@,
        decreases groups@.len() - i,
    {
        if groups[i].0 == *d {
            return Some(i);
        }
        i = i + 1;
    }
    None
}

/// `Itertools::into_group_map` of itertools on the sessions' `(task,
/// interval)` pairs, its map handed out as a vector: one group per task
/// that has sessions, each holding that task's intervals in log order (the
/// source pushes every value onto its key's vector in turn).  The order of
/// the groups is the map's, which the contract leaves open.
#[verifier::external_body]
fn group_by_task(entries: Vec<Entry>) -> (r: Vec<(String, Vec<Interval>)>)
    ensures
        groups_match(r@, entries@),
{
    entries.into_iter().map(|e| (e.desc, e.interval)).into_group_map().into_iter().collect()
}

/// A parsed log: its lines, and its sessions grouped by task.
#[derive(Debug)]
pub struct Report {
    /// One `(task, intervals)` group per task.
    pub entries: Vec<(String, Vec<Interval>)>,
    /// Every line of the log, in order.
    pub entry_lines: Vec<EntryLine>,
}

/// All intervals are closed, none ends before it starts, and their times
/// are ones chrono can represent.
pub open spec fn groups_closed(groups: Seq<(String, Vec<Interval>)>) -> bool {
    forall|i: int, k: int|
        0 <= i < groups.len() && 0 <= k < groups[i].1@.len() ==> (#[trigger] groups[i].1@[k]).end is Some
            && valid_interval(groups[i].1@[k]) && interval_duration(groups[i].1@[k]) >= 0
}

/// No two groups are of the same task.
pub open spec fn tasks_distinct(groups: Seq<(String, Vec<Interval>)>) -> bool {
    forall|i: int, j: int|
        0 <= i < j < groups.len() ==> (#[trigger] groups[i]).0@ != (#[trigger] groups[j]).0@
}

/// The last line is an open START.
pub open spec fn ends_open(lines: Seq<EntryLine>) -> bool {
    lines.len() > 0 && lines.last().kind == EntryKind::Start
}

impl Report {
    /// One group per task, intervals closed and forward, times
    /// representable, as parsing leaves them.
    pub open spec fn wf(&self) -> bool {
        &&& tasks_distinct(self.entries@)
        &&& groups_closed(self.entries@)
        &&& forall|i: int|
            0 <= i < self.entry_lines@.len() ==> valid_time(#[trigger] self.entry_lines@[i].dt as int)
    }

    /// Reads a whole log: every line must parse, and consecutive line pairs
    /// (a last unpaired line is kept among the lines only) must be START/END
    /// pairs of one task with the end not before the start.
    pub fn parse(s: &str) -> (r: Result<Report, ParseError>)
        ensures
            match r {
                Ok(rep) => {
                    &&& first_bad_line(lines_of(s@)) is None
                    &&& lines_read(lines_of(s@), rep.entry_lines@)
                    &&& first_bad_pair(rep.entry_lines@, (rep.entry_lines@.len() / 2) as int) is None
                    &&& groups_match(rep.entries@, pairs_of(rep.entry_lines@))
                    &&& rep.wf()
                },
                Err(e) => match first_bad_line(lines_of(s@)) {
                    Some(i) => line_error(lines_of(s@)[i], e),
                    None => exists|lines: Seq<EntryLine>|
                        #[trigger] lines_read(lines_of(s@), lines) && (first_bad_pair(
                            lines,
                            (lines.len() / 2) as int,
                        ) matches Some((k, e2)) && e2 == e),
                },
            },
    {
        let texts = split_lines(s);
        let lines = match parse_entry_lines(&texts) {
            Ok(lines) => lines,
            Err(e) => {
                proof {
                    let i = first_bad_line(lines_of(s@))->0;
                    assert(texts@[i]@ == string_views(texts@)[i]);
                }
                return Err(e);
            },
        };
        let pairs = match pair_up(&lines) {
            Ok(p) => p,
            Err(e) => {
                assert(lines_read(lines_of(s@), lines@));
                return Err(e);
            },
        };
        assert(pairs@ =~= pairs_of(lines@));
        let ghost paired = pairs@;
        let groups = group_by_task(pairs);
        proof {
            assert forall|i: int| 0 <= i < lines@.len() implies valid_time(
                #[trigger] lines@[i].dt as int,
            ) by {
                assert(line_model(lines_of(s@)[i]) == Some(line_view(lines@[i])));
            }
            assert forall|i: int, k: int|
                0 <= i < groups@.len() && 0 <= k < groups@[i].1@.len() implies (
            #[trigger] groups@[i].1@[k]).end is Some && valid_interval(groups@[i].1@[k])
                && interval_duration(groups@[i].1@[k]) >= 0 by {
                lemma_intervals_of_closed(paired, groups@[i].0@, lines@, k);
            }
        }
        Ok(Report { entries: groups, entry_lines: lines })
    }

    /// Intervals recorded for task `desc`, if any.
    pub fn intervals_for(&self, desc: &str) -> (r: Option<&Vec<Interval>>)
        ensures
            match r {
                Some(v) => has_group(self.entries@, desc@) && exists|i: int|
                    0 <= i < self.entries@.len() && self.entries@[i].0@ == desc@ && self.entries@[i].1
                        == *v,
                None => !has_group(self.entries@, desc@),
            },
    {
        let owned = lowercase_free_copy(desc);
        match find_group(&self.entries, &owned) {
            Some(i) => Some(&self.entries[i].1),
            None => None,
        }
    }

    /// Whether task `desc` has sessions.
    pub fn has_task(&self, desc: &str) -> (r: bool)
        ensures
            r == has_group(self.entries@, desc@),
    {
        let owned = lowercase_free_copy(desc);
        match find_group(&self.entries, &owned) {
            Some(i) => true,
            None => false,
        }
    }

    /// Total time over all sessions.
    pub fn total_duration(&self) -> (r: i128)
        requires
            self.wf(),
            groups_total(self.entries@) <= MAX_DELTA,
        ensures
            r == groups_total(self.entries@),
    {
        let mut total: i128 = 0;
        let mut i: usize = 0;
        while i < self.entries.len()
            invariant
                i <= self.entries@.len(),
                self.wf(),
                groups_total(self.entries@) <= MAX_DELTA,
                total == groups_total(self.entries@.take(i as int)),
            decreases self.entries@.len() - i,
        {
            proof {
                lemma_groups_prefix(self.entries@, i as int);
                lemma_groups_prefix(self.entries@, i + 1);
                assert(self.entries@.take(i + 1).drop_last() =~= self.entries@.take(i as int));
                assert(self.entries@.take(i + 1).last() == self.entries@[i as int]);
                assert(forward_intervals(self.entries@[i as int].1@));
            }
            let part = sum_intervals(&self.entries[i].1);
            total = total + part;
            i = i + 1;
        }
        assert(self.entries@.take(self.entries@.len() as int) =~= self.entries@);
        total
    }

    /// Total time per task, longest first.
    pub fn summarize(&self) -> (r: Vec<(String, i128)>)
        requires
            self.wf(),
            group_totals_fit(self.entries@),
        ensures
            sorted_permutation_of(r@, group_rows(self.entries@)),
    {
        let mut rows: Vec<(String, i128)> = Vec::new();
        let mut i: usize = 0;
        while i < self.entries.len()
            invariant
                i <= self.entries@.len(),
                self.wf(),
                group_totals_fit(self.entries@),
                rows@ == group_rows(self.entries@).take(i as int),
            decreases self.entries@.len() - i,
        {
            proof {
                assert(forward_intervals(self.entries@[i as int].1@));
                assert(intervals_total(self.entries@[i as int].1@) <= MAX_DELTA);
            }
            let total = sum_intervals(&self.entries[i].1);
            rows.push((self.entries[i].0.clone(), total));
            assert(rows@ =~= group_rows(self.entries@).take(i + 1));
            i = i + 1;
        }
        assert(rows@ =~= group_rows(self.entries@));
        sorted_by_duration(rows)
    }

    /// The lines that starting task `desc` at `now` appends: a START line
    /// (description lowercased), preceded by an END of the open session at
    /// `now` when the log ends with an open START, the new START then one
    /// second later.  Fails on an empty description, and when the open
    /// session did not start before `now`.
    pub fn build_start_entries(&self, desc: &str, now: i128) -> (r: Result<Vec<EntryLine>, StartError>)
        requires
            valid_time(now as int),
            ends_open(self.entry_lines@) && self.entry_lines@.last().dt < now ==> valid_time(
                now + 1000000000,
            ),
        ensures
            desc@.len() == 0 ==> r == Err::<Vec<EntryLine>, StartError>(StartError::MissingDescription),
            desc@.len() > 0 && ends_open(self.entry_lines@) && self.entry_lines@.last().dt >= now
                ==> r == Err::<Vec<EntryLine>, StartError>(StartError::EndBeforeStart),
            desc@.len() > 0 && ends_open(self.entry_lines@) && self.entry_lines@.last().dt < now
                ==> (r matches Ok(v) && v@.len() == 2 && v@[0].kind == EntryKind::End && v@[0].dt
                == now && v@[0].desc@ == self.entry_lines@.last().desc@ && v@[1].kind
                == EntryKind::Start && v@[1].dt == now + 1000000000 && v@[1].desc@ == spec_lowercase(desc@)),
            desc@.len() > 0 && !ends_open(self.entry_lines@) ==> (r matches Ok(v) && v@.len() == 1
                && v@[0].kind == EntryKind::Start && v@[0].dt == now && v@[0].desc@
                == spec_lowercase(desc@)),
    {
        if desc.is_empty() {
            return Err(StartError::MissingDescription);
        }
        let desc = lowercase(desc);
        let n = self.entry_lines.len();
        if n > 0 && self.entry_lines[n - 1].kind == EntryKind::Start {
            let last = &self.entry_lines[n - 1];
            if last.dt >= now {
                return Err(StartError::EndBeforeStart);
            }
            let mut v: Vec<EntryLine> = Vec::new();
            v.push(EntryLine { kind: EntryKind::End, dt: now, desc: last.desc.clone() });
            v.push(EntryLine { kind: EntryKind::Start, dt: now + 1000000000, desc });
            Ok(v)
        } else {
            let mut v: Vec<EntryLine> = Vec::new();
            v.push(EntryLine { kind: EntryKind::Start, dt: now, desc });
            Ok(v)
        }
    }
}

/// A copy of `s` as an owned string.
fn lowercase_free_copy(s: &str) -> (r: String)
    ensures
        r@ == s@,
{
    s.to_owned()
}

proof fn lemma_intervals_of_closed(entries: Seq<Entry>, d: Seq<char>, lines: Seq<EntryLine>, k: int)
    requires
        entries == pairs_of(lines),
        forall|i: int| 0 <= i < lines.len() ==> valid_time(#[trigger] lines[i].dt as int),
        forall|j: int| 0 <= j < entries.len() ==> #[trigger] pair_error(lines[2 * j], lines[2 * j + 1]) is None,
        0 <= k < intervals_of(entries, d).len(),
    ensures
        intervals_of(entries, d)[k].end is Some,
        valid_interval(intervals_of(entries, d)[k]),
        interval_duration(intervals_of(entries, d)[k]) >= 0,
{
    lemma_intervals_of_members(entries, d, k);
    let j = choose|j: int| 0 <= j < entries.len() && entries[j].interval == intervals_of(entries, d)[k];
    assert(valid_time(lines[2 * j].dt as int));
    assert(valid_time(lines[2 * j + 1].dt as int));
    assert(pair_error(lines[2 * j], lines[2 * j + 1]) is None);
}

proof fn lemma_intervals_of_members(entries: Seq<Entry>, d: Seq<char>, k: int)
    requires
        0 <= k < intervals_of(entries, d).len(),
    ensures
        exists|j: int| 0 <= j < entries.len() && entries[j].interval == intervals_of(entries, d)[k],
    decreases entries.len(),
{
    let r = intervals_of(entries.drop_last(), d);
    if k < r.len() {
        lemma_intervals_of_members(entries.drop_last(), d, k);
        let j = choose|j: int|
            0 <= j < entries.drop_last().len() && entries.drop_last()[j].interval == r[k];
        assert(entries[j] == entries.drop_last()[j]);
    } else {
        assert(entries[entries.len() - 1].interval == intervals_of(entries, d)[k]);
    }
}

/// The per-task rows add up to the total of all groups.
proof fn lemma_group_rows_sum(g: Seq<(String, Vec<Interval>)>)
    requires
        forall|i: int| 0 <= i < g.len() ==> 0 <= #[trigger] intervals_total(g[i].1@) <= MAX_DELTA,
    ensures
        rows_sum(group_rows(g)) == groups_total(g),
    decreases g.len(),
{
    if g.len() > 0 {
        let last = g.last().1@;
        assert(g.last() == g[g.len() - 1]);
        assert forall|i: int| 0 <= i < g.drop_last().len() implies 0 <= #[trigger] intervals_total(
            g.drop_last()[i].1@,
        ) <= MAX_DELTA by {
            assert(g.drop_last()[i] == g[i]);
        }
        lemma_group_rows_sum(g.drop_last());
        assert(group_rows(g).drop_last() =~= group_rows(g.drop_last()));
        assert(group_rows(g).last().1 == intervals_total(last));
    }
}

/// Law: the per-task summary adds up to the report's total time, whatever
/// order rows of equal length come in.
pub proof fn lemma_summary_adds_up(rep: Report, out: Seq<(String, i128)>)
    requires
        rep.wf(),
        group_totals_fit(rep.entries@),
        sorted_permutation_of(out, group_rows(rep.entries@)),
    ensures
        rows_sum(out) == groups_total(rep.entries@),
{
    lemma_groups_prefix(rep.entries@, 0);
    lemma_group_rows_sum(rep.entries@);
    lemma_sorted_keeps_sum(out, group_rows(rep.entries@));
}

impl std::str::FromStr for Report {
    type Err = ParseError;

    /// Reads a whole log, as `Report::parse` does.
    fn from_str(s: &str) -> (r: Result<Report, ParseError>)
        ensures
            match r {
                Ok(rep) => {
                    &&& first_bad_line(lines_of(s@)) is None
                    &&& lines_read(lines_of(s@), rep.entry_lines@)
                    &&& first_bad_pair(rep.entry_lines@, (rep.entry_lines@.len() / 2) as int) is None
                    &&& groups_match(rep.entries@, pairs_of(rep.entry_lines@))
                    &&& rep.wf()
                },
                Err(e) => match first_bad_line(lines_of(s@)) {
                    Some(i) => line_error(lines_of(s@)[i], e),
                    None => exists|lines: Seq<EntryLine>|
                        #[trigger] lines_read(lines_of(s@), lines) && (first_bad_pair(
                            lines,
                            (lines.len() / 2) as int,
                        ) matches Some((k, e2)) && e2 == e),
                },
            },
    {
        Report::parse(s)
    }
}

} // verus!
