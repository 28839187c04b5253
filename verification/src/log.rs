//! The in-memory side of a log-backed repository of sessions.
//!
//! The log (a `.hours` file, or stdin/stdout) is the source of truth: it is
//! read once, and every change is first written as lines appended to it.
//! `EntryLog` holds the sessions the lines describe and says, for each
//! operation, which lines to append; applying the operation then changes
//! the sessions exactly as reading the longer log back would.
use crate::entry::{
    first_bad_line, first_bad_pair, line_error, lines_read, model_pair_error, pair_error,
    paired_entry, parse_entry_lines, valid_interval, Entry, EntryKind, EntryLine, Interval,
    line_view,
};
use crate::error::ParseError;
use crate::text::{spec_trim, string_views, trim};
use crate::time::{valid_time, MAX_TIME, MIN_TIME, NANOS_PER_SECOND};
use vstd::prelude::*;

verus! {

/// Which sessions a query asks for: those starting within `[from, to]`,
/// after skipping `offset` of them, at most `limit` of them.
#[derive(Debug, Clone, Copy, PartialEq, Eq, Structural)]
pub struct QueryOpts {
    pub from: Option<i128>,
    pub to: Option<i128>,
    pub limit: Option<usize>,
    pub offset: Option<usize>,
}

impl Default for QueryOpts {
    fn default() -> (r: Self)
        ensures
            r == (QueryOpts { from: None, to: None, limit: None, offset: None }),
    {
        QueryOpts { from: None, to: None, limit: None, offset: None }
    }
}

/// Errors of session commands on the log.
#[derive(Debug, Clone, Copy, PartialEq, Eq, Structural)]
pub enum LogError {
    /// There is no open session to end.
    NothingStarted,
}

impl LogError {
    /// The human-readable message of the error.
    pub fn message(&self) -> (r: &'static str)
        ensures
            r@ == "tried to end but nothing was started"@,
    {
        match self {
            LogError::NothingStarted => "tried to end but nothing was started",
        }
    }
}

/// A session's description and interval.
pub open spec fn entry_view(e: Entry) -> (Seq<char>, Interval) {
    (e.desc@, e.interval)
}

/// The descriptions and intervals of a sequence of sessions.
pub open spec fn entries_view(es: Seq<Entry>) -> Seq<(Seq<char>, Interval)> {
    es.map_values(|e: Entry| entry_view(e))
}

/// The kinds, descriptions and times of a sequence of lines.
pub open spec fn lines_view(ls: Seq<EntryLine>) -> Seq<(EntryKind, Seq<char>, i128)> {
    ls.map_values(|l: EntryLine| line_view(l))
}

/// The log ends with a START that has no END yet.
pub open spec fn ends_with_start(lines: Seq<EntryLine>) -> bool {
    lines.len() > 0 && lines.last().kind == EntryKind::Start
}

/// Number of lines that pair up: all but an open START at the end.
pub open spec fn body_len(lines: Seq<EntryLine>) -> int {
    if ends_with_start(lines) {
        lines.len() - 1
    } else {
        lines.len() as int
    }
}

/// The sessions of the first `n` line pairs.
pub open spec fn paired_view(lines: Seq<EntryLine>, n: int) -> Seq<(Seq<char>, Interval)> {
    Seq::new(n as nat, |k: int| entry_view(paired_entry(lines[2 * k], lines[2 * k + 1])))
}

/// The sessions a sequence of log lines describes: consecutive START/END
/// pairs, then an open session for a final unpaired START.  `None` when a
/// pair is invalid, or when an END or a line of another kind is left
/// without a partner.
pub open spec fn loaded(lines: Seq<EntryLine>) -> Option<Seq<(Seq<char>, Interval)>> {
    let body = body_len(lines);
    if body % 2 == 1 {
        None
    } else if first_bad_pair(lines, body / 2) is Some {
        None
    } else {
        let pairs = paired_view(lines, body / 2);
        if ends_with_start(lines) {
            Some(pairs.push((lines.last().desc@, Interval { start: lines.last().dt, end: None })))
        } else {
            Some(pairs)
        }
    }
}

/// A session still running: the last one, when it has no end.
pub open spec fn last_open(v: Seq<(Seq<char>, Interval)>) -> bool {
    v.len() > 0 && v.last().1.end is None
}

/// The lines that starting task `desc` at `dt` appends: the END of the
/// running session one second earlier, if there is one, then the START.
pub open spec fn start_lines_of(v: Seq<(Seq<char>, Interval)>, desc: Seq<char>, dt: i128) -> Seq<
    (EntryKind, Seq<char>, i128),
> {
    if last_open(v) {
        seq![(EntryKind::End, v.last().0, (dt - 1000000000) as i128), (EntryKind::Start, desc, dt)]
    } else {
        seq![(EntryKind::Start, desc, dt)]
    }
}

/// The sessions after starting task `desc` at `dt`: a running session is
/// closed one second before `dt`, and a new running session is added.
pub open spec fn started(v: Seq<(Seq<char>, Interval)>, desc: Seq<char>, dt: i128) -> Seq<
    (Seq<char>, Interval),
> {
    let base = if last_open(v) {
        v.drop_last().push(
            (v.last().0, Interval { start: v.last().1.start, end: Some((dt - 1000000000) as i128) }),
        )
    } else {
        v
    };
    base.push((desc, Interval { start: dt, end: None }))
}

/// The sessions after ending the running session at `dt`.
pub open spec fn ended(v: Seq<(Seq<char>, Interval)>, dt: i128) -> Seq<(Seq<char>, Interval)> {
    v.drop_last().push((v.last().0, Interval { start: v.last().1.start, end: Some(dt) }))
}

/// A session starts inside the query's window.
pub open spec fn in_window(e: (Seq<char>, Interval), opts: QueryOpts) -> bool {
    let from = match opts.from {
        Some(f) => f as int,
        None => MIN_TIME as int,
    };
    let to = match opts.to {
        Some(t) => t as int,
        None => MAX_TIME as int,
    };
    from <= e.1.start && e.1.start <= to
}

/// The sessions inside the query's window, in order.
pub open spec fn matching(v: Seq<(Seq<char>, Interval)>, opts: QueryOpts) -> Seq<
    (Seq<char>, Interval),
>
    decreases v.len(),
{
    if v.len() == 0 {
        Seq::empty()
    } else if in_window(v.last(), opts) {
        matching(v.drop_last(), opts).push(v.last())
    } else {
        matching(v.drop_last(), opts)
    }
}

/// `s` without its first `offset` items, at most `limit` of the rest.
pub open spec fn slice_window(s: Seq<(Seq<char>, Interval)>, offset: int, limit: int) -> Seq<
    (Seq<char>, Interval),
> {
    let lo = if offset < s.len() {
        offset
    } else {
        s.len() as int
    };
    let hi = if limit < s.len() - lo {
        lo + limit
    } else {
        s.len() as int
    };
    s.subrange(lo, hi)
}

/// What a query returns.
pub open spec fn selected(v: Seq<(Seq<char>, Interval)>, opts: QueryOpts) -> Seq<
    (Seq<char>, Interval),
> {
    let offset = match opts.offset {
        Some(o) => o as int,
        None => 0,
    };
    let limit = match opts.limit {
        Some(l) => l as int,
        None => usize::MAX as int,
    };
    slice_window(matching(v, opts), offset, limit)
}

/// A line's view, from its parts.
pub open spec fn line_parts(l: EntryLine) -> (EntryKind, Seq<char>, i128) {
    line_view(l)
}

/// The lines that record the sessions from position `from` on, as they are
/// written when the log is stdout: a START per session, and an END for each
/// closed one.
pub open spec fn replay_lines(v: Seq<(Seq<char>, Interval)>) -> Seq<(EntryKind, Seq<char>, i128)>
    decreases v.len(),
{
    if v.len() == 0 {
        Seq::empty()
    } else {
        let e = v.last();
        let start = seq![(EntryKind::Start, e.0, e.1.start)];
        replay_lines(v.drop_last()) + match e.1.end {
            Some(t) => start.push((EntryKind::End, e.0, t)),
            None => start,
        }
    }
}

/// Index of a non-blank text in `texts`.
pub open spec fn non_blank(texts: Seq<Seq<char>>) -> Seq<Seq<char>>
    decreases texts.len(),
{
    if texts.len() == 0 {
        Seq::empty()
    } else if spec_trim(texts.last()).len() == 0 {
        non_blank(texts.drop_last())
    } else {
        non_blank(texts.drop_last()).push(texts.last())
    }
}

/// Reads the lines of a log, skipping blank ones; fails with the error of
/// the first non-blank line that does not parse.
pub fn parse_log_lines(texts: &Vec<String>) -> (r: Result<Vec<EntryLine>, ParseError>)
    ensures
        match r {
            Ok(lines) => first_bad_line(non_blank(string_views(texts@))) is None && lines_read(
                non_blank(string_views(texts@)),
                lines@,
            ),
            Err(e) => first_bad_line(non_blank(string_views(texts@))) matches Some(i) && 0 <= i
                < non_blank(string_views(texts@)).len() && line_error(
                non_blank(string_views(texts@))[i],
                e,
            ),
        },
{
    let ghost views = string_views(texts@);
    let mut kept: Vec<String> = Vec::new();
    let mut i: usize = 0;
    while i < texts.len()
        invariant
            views == string_views(texts@),
            i <= texts@.len(),
            string_views(kept@) == non_blank(views.take(i as int)),
        decreases texts@.len() - i,
    {
        let t = trim(texts[i].as_str());
        proof {
            assert(views.take(i + 1).drop_last() =~= views.take(i as int));
            assert(views.take(i + 1).last() == texts@[i as int]@);
        }
        if !t.is_empty() {
            let ghost k0 = kept@;
            kept.push(texts[i].clone());
            assert(string_views(kept@) =~= string_views(k0).push(texts@[i as int]@));
        }
        i = i + 1;
    }
    assert(views.take(i as int) =~= views);
    parse_entry_lines(&kept)
}

/// The sessions `lines` describe, or the error of the first bad pair.  A
/// line left without a partner before the end is outside what this accepts,
/// unless a bad pair comes before it.
pub fn load_entries(lines: &Vec<EntryLine>) -> (r: Result<Vec<Entry>, ParseError>)
    requires
        body_len(lines@) % 2 == 0 || first_bad_pair(lines@, body_len(lines@) / 2) is Some,
    ensures
        match r {
            Ok(es) => loaded(lines@) == Some(entries_view(es@)),
            Err(e) => loaded(lines@) is None && (first_bad_pair(lines@, body_len(lines@) / 2) matches Some((
                k,
                e2,
            )) && e2 == e),
        },
{
    let n = lines.len();
    let open = n > 0 && lines[n - 1].kind == EntryKind::Start;
    let body = if open {
        n - 1
    } else {
        n
    };
    let pairs = body / 2;
    let mut out: Vec<Entry> = Vec::new();
    let mut k: usize = 0;
    while k < pairs
        invariant
            n == lines@.len(),
            body == body_len(lines@),
            pairs == body / 2,
            body % 2 == 0 || first_bad_pair(lines@, pairs as int) is Some,
            k <= pairs,
            entries_view(out@) == paired_view(lines@, k as int),
            forall|j: int| 0 <= j < k ==> #[trigger] pair_error(lines@[2 * j], lines@[2 * j + 1]) is None,
        decreases pairs - k,
    {
        assert(k + k + 1 < n);
        let a = k + k;
        match Entry::new(&lines[a], &lines[a + 1]) {
            Ok(e) => {
                let ghost o0 = out@;
                out.push(e);
                assert(entries_view(out@) =~= paired_view(lines@, k + 1)) by {
                    assert(entries_view(out@) =~= entries_view(o0).push(entry_view(e)));
                }
            },
            Err(e) => {
                proof {
                    lemma_first_bad_pair_found(lines@, pairs as int, k as int, e);
                }
                return Err(e);
            },
        }
        k = k + 1;
    }
    proof {
        lemma_first_bad_pair_clear(lines@, pairs as int);
        assert(body % 2 == 0);
    }
    if open {
        let last = &lines[n - 1];
        let ghost o0 = out@;
        out.push(Entry { desc: last.desc.clone(), interval: Interval { start: last.dt, end: None } });
        assert(entries_view(out@) =~= entries_view(o0).push(
            (lines@.last().desc@, Interval { start: lines@.last().dt, end: None }),
        ));
    }
    Ok(out)
}

proof fn lemma_first_bad_pair_clear(lines: Seq<EntryLine>, n: int)
    requires
        forall|k: int| 0 <= k < n ==> #[trigger] pair_error(lines[2 * k], lines[2 * k + 1]) is None,
    ensures
        first_bad_pair(lines, n) is None,
    decreases n,
{
    if n > 0 {
        lemma_first_bad_pair_clear(lines, n - 1);
        assert(pair_error(lines[2 * (n - 1)], lines[2 * (n - 1) + 1]) is None);
    }
}

proof fn lemma_first_bad_pair_found(lines: Seq<EntryLine>, n: int, k: int, e: ParseError)
    requires
        0 <= k < n,
        forall|j: int| 0 <= j < k ==> #[trigger] pair_error(lines[2 * j], lines[2 * j + 1]) is None,
        pair_error(lines[2 * k], lines[2 * k + 1]) == Some(e),
    ensures
        first_bad_pair(lines, n) == Some((k, e)),
    decreases n,
{
    if k < n - 1 {
        lemma_first_bad_pair_found(lines, n - 1, k, e);
    } else {
        lemma_first_bad_pair_clear(lines, n - 1);
    }
}

/// The sessions of a log, held in memory.
pub struct EntryLog {
    entries: Vec<Entry>,
    /// Number of sessions read from the log; later ones are new.
    initial_entry_count: usize,
}

impl View for EntryLog {
    type V = Seq<(Seq<char>, Interval)>;

    closed spec fn view(&self) -> Seq<(Seq<char>, Interval)> {
        entries_view(self.entries@)
    }
}

impl EntryLog {
    /// Times are representable and the count of read sessions is in range.
    pub closed spec fn wf(&self) -> bool {
        &&& self.initial_entry_count <= self.entries@.len()
        &&& forall|i: int| 0 <= i < self.entries@.len() ==> valid_interval(#[trigger] self.entries@[i].interval)
    }

    /// Number of sessions that were read from the log.
    pub closed spec fn spec_initial_count(&self) -> nat {
        self.initial_entry_count as nat
    }

    proof fn lemma_view_facts(&self)
        requires
            self.wf(),
        ensures
            self@.len() == self.entries@.len(),
            forall|i: int| 0 <= i < self@.len() ==> #[trigger] self@[i] == entry_view(self.entries@[i]),
            forall|i: int| 0 <= i < self@.len() ==> valid_interval(#[trigger] self@[i].1),
    {
        assert forall|i: int| 0 <= i < self@.len() implies valid_interval(#[trigger] self@[i].1) by {
            assert(self@[i] == entry_view(self.entries@[i]));
        }
    }

    /// Every interval of the log is representable.
    pub open spec fn times_ok(v: Seq<(Seq<char>, Interval)>) -> bool {
        forall|i: int| 0 <= i < v.len() ==> valid_interval(#[trigger] v[i].1)
    }

    /// The sessions of the given log lines; all of them count as read.
    pub fn from_lines(lines: &Vec<EntryLine>) -> (r: Result<EntryLog, ParseError>)
        requires
            body_len(lines@) % 2 == 0 || first_bad_pair(lines@, body_len(lines@) / 2) is Some,
            forall|i: int| 0 <= i < lines@.len() ==> valid_time(#[trigger] lines@[i].dt as int),
        ensures
            match r {
                Ok(log) => log.wf() && loaded(lines@) == Some(log@) && log.spec_initial_count()
                    == log@.len(),
                Err(e) => loaded(lines@) is None && (first_bad_pair(lines@, body_len(lines@) / 2) matches Some((
                    k,
                    e2,
                )) && e2 == e),
            },
    {
        match load_entries(lines) {
            Ok(entries) => {
                let count = entries.len();
                let log = EntryLog { entries, initial_entry_count: count };
                proof {
                    assert forall|i: int| 0 <= i < log.entries@.len() implies valid_interval(
                        #[trigger] log.entries@[i].interval,
                    ) by {
                        lemma_loaded_times(lines@, i);
                        assert(log@[i] == entry_view(log.entries@[i]));
                    }
                }
                Ok(log)
            },
            Err(e) => Err(e),
        }
    }

    /// Sessions that satisfy `opts`, in log order.
    pub fn list(&self, opts: &QueryOpts) -> (r: Vec<Entry>)
        requires
            self.wf(),
        ensures
            entries_view(r@) == selected(self@, *opts),
            forall|i: int| 0 <= i < r@.len() ==> valid_interval(#[trigger] r@[i].interval),
    {
        proof {
            self.lemma_view_facts();
        }
        let from = match opts.from {
            Some(f) => f,
            None => MIN_TIME,
        };
        let to = match opts.to {
            Some(t) => t,
            None => MAX_TIME,
        };
        let offset = match opts.offset {
            Some(o) => o,
            None => 0,
        };
        let limit = match opts.limit {
            Some(l) => l,
            None => usize::MAX,
        };
        let mut out: Vec<Entry> = Vec::new();
        let mut seen: usize = 0;
        let mut i: usize = 0;
        let ghost v = self@;
        while i < self.entries.len()
            invariant
                v == self@,
                v.len() == self.entries@.len(),
                forall|j: int| 0 <= j < v.len() ==> #[trigger] v[j] == entry_view(self.entries@[j]),
                forall|j: int| 0 <= j < v.len() ==> valid_interval(#[trigger] v[j].1),
                i <= self.entries@.len(),
                seen == matching(v.take(i as int), *opts).len(),
                entries_view(out@) == slice_window(matching(v.take(i as int), *opts), offset as int, limit as int),
                forall|j: int| 0 <= j < out@.len() ==> valid_interval(#[trigger] out@[j].interval),
                from == (match opts.from {
                    Some(f) => f as int,
                    None => MIN_TIME as int,
                }),
                to == (match opts.to {
                    Some(t) => t as int,
                    None => MAX_TIME as int,
                }),
                offset == (match opts.offset {
                    Some(o) => o as int,
                    None => 0,
                }),
                limit == (match opts.limit {
                    Some(l) => l as int,
                    None => usize::MAX as int,
                }),
            decreases self.entries@.len() - i,
        {
            let e = &self.entries[i];
            let ghost m0 = matching(v.take(i as int), *opts);
            assert(v.take(i + 1).drop_last() =~= v.take(i as int));
            assert(v.take(i + 1).last() == v[i as int]);
            if from <= e.interval.start && e.interval.start <= to {
                let ghost o0 = out@;
                assert(matching(v.take(i + 1), *opts) == m0.push(v[i as int]));
                if seen >= offset && seen - offset < limit {
                    out.push(e.clone());
                    assert(entries_view(out@) =~= entries_view(o0).push(entry_view(*e)));
                    assert(slice_window(m0.push(v[i as int]), offset as int, limit as int) =~= slice_window(
                        m0,
                        offset as int,
                        limit as int,
                    ).push(v[i as int]));
                } else {
                    assert(slice_window(m0.push(v[i as int]), offset as int, limit as int) =~= slice_window(
                        m0,
                        offset as int,
                        limit as int,
                    ));
                }
                proof {
                    lemma_matching_len(v.take(i as int), *opts);
                }
                seen = seen + 1;
            } else {
                assert(matching(v.take(i + 1), *opts) == m0);
            }
            i = i + 1;
        }
        assert(v.take(i as int) =~= v);
        out
    }

    /// The lines to append before starting task `desc` at `dt`.
    pub fn start_lines(&self, desc: &str, dt: i128) -> (r: Vec<EntryLine>)
        requires
            self.wf(),
            valid_time(dt as int),
            last_open(self@) ==> valid_time(dt - 1000000000),
        ensures
            lines_view(r@) == start_lines_of(self@, desc@, dt),
            forall|i: int| 0 <= i < r@.len() ==> valid_time(#[trigger] r@[i].dt as int),
    {
        proof {
            self.lemma_view_facts();
        }
        let mut v: Vec<EntryLine> = Vec::new();
        let n = self.entries.len();
        if n > 0 && self.entries[n - 1].interval.end.is_none() {
            v.push(EntryLine { kind: EntryKind::End, desc: self.entries[n - 1].desc.clone(), dt: dt - NANOS_PER_SECOND });
        }
        v.push(EntryLine { kind: EntryKind::Start, desc: desc.to_owned(), dt });
        assert(lines_view(v@) =~= start_lines_of(self@, desc@, dt));
        v
    }

    /// Starts task `desc` at `dt`, closing a running session one second
    /// before.
    pub fn start_session(&mut self, desc: &str, dt: i128)
        requires
            old(self).wf(),
            valid_time(dt as int),
            last_open(old(self)@) ==> valid_time(dt - 1000000000),
        ensures
            final(self).wf(),
            final(self)@ == started(old(self)@, desc@, dt),
            final(self).spec_initial_count() == old(self).spec_initial_count(),
    {
        proof {
            self.lemma_view_facts();
        }
        let ghost v0 = self@;
        let n = self.entries.len();
        if n > 0 && self.entries[n - 1].interval.end.is_none() {
            match self.entries.pop() {
                Some(e) => {
                    let start = e.interval.start;
                    self.entries.push(Entry { desc: e.desc, interval: Interval { start, end: Some(dt - NANOS_PER_SECOND) } });
                },
                None => {},
            }
        }
        self.entries.push(Entry { desc: desc.to_owned(), interval: Interval { start: dt, end: None } });
        proof {
            assert(self@ =~= started(v0, desc@, dt));
            assert forall|i: int| 0 <= i < self.entries@.len() implies valid_interval(
                #[trigger] self.entries@[i].interval,
            ) by {
                if i < n - 1 || (i == n - 1 && !last_open(v0)) {
                    assert(self.entries@[i].interval == v0[i].1);
                }
            }
        }
    }

    /// The line to append before ending the running session at `dt`.
    pub fn end_lines(&self, dt: i128) -> (r: Result<Vec<EntryLine>, LogError>)
        requires
            self.wf(),
            valid_time(dt as int),
        ensures
            match r {
                Ok(v) => last_open(self@) && lines_view(v@) == seq![
                    (EntryKind::End, self@.last().0, dt),
                ],
                Err(e) => !last_open(self@) && e == LogError::NothingStarted,
            },
    {
        proof {
            self.lemma_view_facts();
        }
        let n = self.entries.len();
        if n > 0 && self.entries[n - 1].interval.end.is_none() {
            let mut v: Vec<EntryLine> = Vec::new();
            v.push(EntryLine { kind: EntryKind::End, desc: self.entries[n - 1].desc.clone(), dt });
            assert(lines_view(v@) =~= seq![(EntryKind::End, self@.last().0, dt)]);
            Ok(v)
        } else {
            Err(LogError::NothingStarted)
        }
    }

    /// Ends the running session at `dt`; fails when there is none.
    pub fn end_session(&mut self, dt: i128) -> (r: Result<(), LogError>)
        requires
            old(self).wf(),
            valid_time(dt as int),
        ensures
            final(self).wf(),
            final(self).spec_initial_count() == old(self).spec_initial_count(),
            match r {
                Ok(()) => last_open(old(self)@) && final(self)@ == ended(old(self)@, dt),
                Err(e) => !last_open(old(self)@) && e == LogError::NothingStarted && final(self)@
                    == old(self)@,
            },
    {
        proof {
            self.lemma_view_facts();
        }
        let ghost v0 = self@;
        let n = self.entries.len();
        if n > 0 && self.entries[n - 1].interval.end.is_none() {
            match self.entries.pop() {
                Some(e) => {
                    let start = e.interval.start;
                    self.entries.push(Entry { desc: e.desc, interval: Interval { start, end: Some(dt) } });
                },
                None => {},
            }
            proof {
                assert(self@ =~= ended(v0, dt));
                assert forall|i: int| 0 <= i < self.entries@.len() implies valid_interval(
                    #[trigger] self.entries@[i].interval,
                ) by {
                    if i < n - 1 {
                        assert(self.entries@[i].interval == v0[i].1);
                    }
                }
            }
            Ok(())
        } else {
            Err(LogError::NothingStarted)
        }
    }

    /// Renames the running session, if any, and returns the START line that
    /// records it under the new name.
    pub fn rename_current(&mut self, new_desc: &str) -> (r: Option<EntryLine>)
        requires
            old(self).wf(),
        ensures
            final(self).wf(),
            final(self).spec_initial_count() == old(self).spec_initial_count(),
            match r {
                Some(line) => last_open(old(self)@) && line_view(line) == (
                    EntryKind::Start,
                    new_desc@,
                    old(self)@.last().1.start,
                ) && final(self)@ == old(self)@.drop_last().push((new_desc@, old(self)@.last().1)),
                None => !last_open(old(self)@) && final(self)@ == old(self)@,
            },
    {
        proof {
            self.lemma_view_facts();
        }
        let ghost v0 = self@;
        let n = self.entries.len();
        if n > 0 && self.entries[n - 1].interval.end.is_none() {
            match self.entries.pop() {
                Some(e) => {
                    let interval = e.interval;
                    self.entries.push(Entry { desc: new_desc.to_owned(), interval });
                    proof {
                        assert(self@ =~= v0.drop_last().push((new_desc@, v0.last().1)));
                        assert forall|i: int| 0 <= i < self.entries@.len() implies valid_interval(
                            #[trigger] self.entries@[i].interval,
                        ) by {
                            if i < n - 1 {
                                assert(self.entries@[i].interval == v0[i].1);
                            }
                        }
                    }
                    Some(EntryLine { kind: EntryKind::Start, desc: new_desc.to_owned(), dt: interval.start })
                },
                None => None,
            }
        } else {
            None
        }
    }

    /// The lines that record the sessions added since the log was read, as
    /// written when the log is stdout.
    pub fn pending_lines(&self) -> (r: Vec<EntryLine>)
        requires
            self.wf(),
        ensures
            lines_view(r@) == replay_lines(self@.skip(self.spec_initial_count() as int)),
    {
        proof {
            self.lemma_view_facts();
        }
        let ghost v = self@;
        let ghost start = self.initial_entry_count as int;
        let mut out: Vec<EntryLine> = Vec::new();
        let mut i = self.initial_entry_count;
        assert(v.skip(start).take(0) =~= Seq::<(Seq<char>, Interval)>::empty());
        while i < self.entries.len()
            invariant
                v == self@,
                v.len() == self.entries@.len(),
                forall|j: int| 0 <= j < v.len() ==> #[trigger] v[j] == entry_view(self.entries@[j]),
                start == self.initial_entry_count,
                start <= i <= self.entries@.len(),
                lines_view(out@) == replay_lines(v.skip(start).take(i - start)),
            decreases self.entries@.len() - i,
        {
            let e = &self.entries[i];
            let ghost o0 = out@;
            out.push(EntryLine { kind: EntryKind::Start, desc: e.desc.clone(), dt: e.interval.start });
            match e.interval.end {
                Some(t) => {
                    out.push(EntryLine { kind: EntryKind::End, desc: e.desc.clone(), dt: t });
                },
                None => {},
            }
            proof {
                let w = v.skip(start).take(i + 1 - start);
                assert(w.drop_last() =~= v.skip(start).take(i - start));
                assert(w.last() == v[i as int]);
                assert(lines_view(out@) =~= replay_lines(w));
            }
            i = i + 1;
        }
        assert(v.skip(start).take(i - start) =~= v.skip(start));
        out
    }

    /// The sessions, in log order.
    pub fn entries(&self) -> (r: &Vec<Entry>)
        ensures
            entries_view(r@) == self@,
    {
        &self.entries
    }
}

proof fn lemma_matching_len(v: Seq<(Seq<char>, Interval)>, opts: QueryOpts)
    ensures
        matching(v, opts).len() <= v.len(),
    decreases v.len(),
{
    if v.len() > 0 {
        lemma_matching_len(v.drop_last(), opts);
    }
}

proof fn lemma_loaded_times(lines: Seq<EntryLine>, i: int)
    requires
        forall|j: int| 0 <= j < lines.len() ==> valid_time(#[trigger] lines[j].dt as int),
        loaded(lines) is Some,
        0 <= i < loaded(lines)->0.len(),
    ensures
        valid_interval(loaded(lines)->0[i].1),
{
    let body = body_len(lines);
    let v = loaded(lines)->0;
    if i < body / 2 {
        assert(v[i] == entry_view(paired_entry(lines[2 * i], lines[2 * i + 1])));
        assert(valid_time(lines[2 * i].dt as int));
        assert(valid_time(lines[2 * i + 1].dt as int));
    } else {
        assert(valid_time(lines[lines.len() - 1].dt as int));
    }
}


/// Pairing only reads the lines it pairs.
proof fn lemma_first_bad_pair_prefix(a: Seq<EntryLine>, b: Seq<EntryLine>, n: int)
    requires
        0 <= n,
        2 * n <= a.len(),
        2 * n <= b.len(),
        forall|i: int| 0 <= i < 2 * n ==> a[i] == b[i],
    ensures
        first_bad_pair(a, n) == first_bad_pair(b, n),
    decreases n,
{
    if n > 0 {
        lemma_first_bad_pair_prefix(a, b, n - 1);
        assert(a[2 * (n - 1)] == b[2 * (n - 1)]);
        assert(a[2 * (n - 1) + 1] == b[2 * (n - 1) + 1]);
    }
}

/// One more valid pair after `n` valid ones.
proof fn lemma_first_bad_pair_extend(a: Seq<EntryLine>, n: int)
    requires
        0 <= n,
        2 * n + 2 <= a.len(),
        first_bad_pair(a, n) is None,
        pair_error(a[2 * n], a[2 * n + 1]) is None,
    ensures
        first_bad_pair(a, n + 1) is None,
{
}

/// Law: a log read back after appending the lines `start_lines` named
/// holds the sessions `start_session` leaves in memory.  The running
/// session must have started no later than one second before `dt`; when it
/// started later, reading the log back fails (`EndBeforeStart`).
pub proof fn lemma_start_persists(
    lines: Seq<EntryLine>,
    added: Seq<EntryLine>,
    desc: Seq<char>,
    dt: i128,
)
    requires
        loaded(lines) is Some,
        lines_view(added) == start_lines_of(loaded(lines)->0, desc, dt),
        last_open(loaded(lines)->0) ==> loaded(lines)->0.last().1.start <= dt - 1000000000,
    ensures
        loaded(lines + added) == Some(started(loaded(lines)->0, desc, dt)),
{
    let v = loaded(lines)->0;
    let all = lines + added;
    let n = lines.len() as int;
    let body = body_len(lines);
    assert(lines_view(added).len() == added.len());
    assert forall|i: int| 0 <= i < n implies all[i] == lines[i] by {}
    if ends_with_start(lines) {
        assert(last_open(v));
        assert(added.len() == 2);
        assert(line_view(added[0]) == lines_view(added)[0]);
        assert(line_view(added[1]) == lines_view(added)[1]);
        assert(all.len() == n + 2);
        assert(all.last() == added[1]);
        assert(ends_with_start(all));
        assert(body_len(all) == n + 1);
        let m = (n - 1) / 2;
        assert(body == n - 1);
        lemma_first_bad_pair_prefix(lines, all, m);
        assert(all[2 * m] == lines[n - 1]);
        assert(all[2 * m + 1] == added[0]);
        assert(pair_error(all[2 * m], all[2 * m + 1]) is None);
        lemma_first_bad_pair_extend(all, m);
        assert((n + 1) / 2 == m + 1);
        let pairs = paired_view(all, m + 1);
        assert(pairs.drop_last() =~= paired_view(lines, m));
        assert(v.drop_last() =~= paired_view(lines, m));
        assert(loaded(all) == Some(started(v, desc, dt))) by {
            assert(pairs =~= paired_view(lines, m).push(
                (lines.last().desc@, Interval { start: lines.last().dt, end: Some((dt - 1000000000) as i128) }),
            ));
            assert(paired_view(all, (body_len(all) / 2)).push(
                (all.last().desc@, Interval { start: all.last().dt, end: None }),
            ) =~= started(v, desc, dt));
        }
    } else {
        assert(!last_open(v)) by {
            if v.len() > 0 {
                assert(v.last() == paired_view(lines, body / 2).last());
            }
        }
        assert(added.len() == 1);
        assert(line_view(added[0]) == lines_view(added)[0]);
        assert(all.len() == n + 1);
        assert(all.last() == added[0]);
        assert(ends_with_start(all));
        assert(body_len(all) == n);
        lemma_first_bad_pair_prefix(lines, all, n / 2);
        assert(paired_view(all, n / 2) =~= paired_view(lines, n / 2));
        assert(loaded(all) == Some(started(v, desc, dt))) by {
            assert(paired_view(all, n / 2).push(
                (all.last().desc@, Interval { start: all.last().dt, end: None }),
            ) =~= started(v, desc, dt));
        }
    }
}

/// Law: a log read back after appending the line `end_lines` named holds
/// the sessions `end_session` leaves in memory, provided the running
/// session did not start after `dt`.
pub proof fn lemma_end_persists(lines: Seq<EntryLine>, added: Seq<EntryLine>, dt: i128)
    requires
        loaded(lines) is Some,
        last_open(loaded(lines)->0),
        lines_view(added) == seq![(EntryKind::End, loaded(lines)->0.last().0, dt)],
        loaded(lines)->0.last().1.start <= dt,
    ensures
        loaded(lines + added) == Some(ended(loaded(lines)->0, dt)),
{
    let v = loaded(lines)->0;
    let all = lines + added;
    let n = lines.len() as int;
    let body = body_len(lines);
    assert(lines_view(added).len() == added.len());
    assert(line_view(added[0]) == lines_view(added)[0]);
    assert forall|i: int| 0 <= i < n implies all[i] == lines[i] by {}
    assert(ends_with_start(lines)) by {
        if !ends_with_start(lines) {
            if v.len() > 0 {
                assert(v.last() == paired_view(lines, body / 2).last());
            }
        }
    }
    assert(all.len() == n + 1);
    assert(all.last() == added[0]);
    assert(!ends_with_start(all));
    let m = (n - 1) / 2;
    lemma_first_bad_pair_prefix(lines, all, m);
    assert(all[2 * m] == lines[n - 1]);
    assert(all[2 * m + 1] == added[0]);
    lemma_first_bad_pair_extend(all, m);
    assert((n + 1) / 2 == m + 1);
    assert(paired_view(all, m + 1) =~= paired_view(lines, m).push(
        (lines.last().desc@, Interval { start: lines.last().dt, end: Some(dt) }),
    ));
    assert(v.drop_last() =~= paired_view(lines, m));
    assert(paired_view(all, m + 1) =~= ended(v, dt));
}

/// Law: a log whose last line is the running session's START, with that
/// line replaced by the START `rename_current` returned, reads back as the
/// sessions `rename_current` leaves in memory.
pub proof fn lemma_rename_persists(lines: Seq<EntryLine>, line: EntryLine, new_desc: Seq<char>)
    requires
        loaded(lines) is Some,
        ends_with_start(lines),
        line_view(line) == (EntryKind::Start, new_desc, loaded(lines)->0.last().1.start),
    ensures
        loaded(lines.drop_last().push(line)) == Some(
            loaded(lines)->0.drop_last().push((new_desc, loaded(lines)->0.last().1)),
        ),
{
    let v = loaded(lines)->0;
    let all = lines.drop_last().push(line);
    let n = lines.len() as int;
    let body = body_len(lines);
    assert(body == n - 1);
    assert(all.len() == n);
    assert(all.last() == line);
    assert(ends_with_start(all));
    assert(body_len(all) == n - 1);
    assert forall|i: int| 0 <= i < n - 1 implies all[i] == lines[i] by {}
    lemma_first_bad_pair_prefix(lines, all, (n - 1) / 2);
    assert(paired_view(all, (n - 1) / 2) =~= paired_view(lines, (n - 1) / 2));
    assert(v.drop_last() =~= paired_view(lines, (n - 1) / 2));
    assert(v.last().1 == Interval { start: lines.last().dt, end: None });
    assert(loaded(all) == Some(v.drop_last().push((new_desc, v.last().1)))) by {
        assert(paired_view(all, body_len(all) / 2).push(
            (all.last().desc@, Interval { start: all.last().dt, end: None }),
        ) =~= v.drop_last().push((new_desc, v.last().1)));
    }
}

/// The sessions of `v` inside the bounds of the sessions kept by `matching`
/// are those `Seq::filter` keeps under the window's two bounds.
proof fn lemma_matching_is_filter(v: Seq<(Seq<char>, Interval)>, opts: QueryOpts)
    requires
        forall|i: int| 0 <= i < v.len() ==> valid_interval(#[trigger] v[i].1),
    ensures
        matching(v, opts) == v.filter(
            |e: (Seq<char>, Interval)|
                (match opts.from {
                    Some(f) => f <= e.1.start,
                    None => true,
                }) && (match opts.to {
                    Some(t) => e.1.start <= t,
                    None => true,
                }),
        ),
    decreases v.len(),
{
    reveal(Seq::filter);
    if v.len() > 0 {
        assert forall|i: int| 0 <= i < v.drop_last().len() implies valid_interval(
            #[trigger] v.drop_last()[i].1,
        ) by {
            assert(v.drop_last()[i] == v[i]);
        }
        lemma_matching_is_filter(v.drop_last(), opts);
        assert(v.last() == v[v.len() - 1]);
        assert(valid_interval(v.last().1));
    }
}

/// Law: a query lists exactly the sessions, in log order, that start at or
/// after its `from` bound and at or before its `to` bound (each bound only
/// when it is given); offset and limit then cut that list.
pub proof fn lemma_list_window(log: &EntryLog, opts: QueryOpts)
    requires
        log.wf(),
    ensures
        matching(log@, opts) == log@.filter(
            |e: (Seq<char>, Interval)|
                (match opts.from {
                    Some(f) => f <= e.1.start,
                    None => true,
                }) && (match opts.to {
                    Some(t) => e.1.start <= t,
                    None => true,
                }),
        ),
        ({
            let kept = matching(log@, opts);
            let o = match opts.offset {
                Some(o) => o as int,
                None => 0,
            };
            let l = match opts.limit {
                Some(l) => l as int,
                None => kept.len() as int,
            };
            let n = if kept.len() <= o {
                0
            } else if kept.len() - o <= l {
                kept.len() - o
            } else {
                l
            };
            &&& selected(log@, opts).len() == n
            &&& forall|i: int| 0 <= i < n ==> #[trigger] selected(log@, opts)[i] == kept[o + i]
        }),
        opts.offset is None && opts.limit is None ==> selected(log@, opts) == log@.filter(
            |e: (Seq<char>, Interval)|
                (match opts.from {
                    Some(f) => f <= e.1.start,
                    None => true,
                }) && (match opts.to {
                    Some(t) => e.1.start <= t,
                    None => true,
                }),
        ),
{
    log.lemma_view_facts();
    lemma_matching_is_filter(log@, opts);
    let m = matching(log@, opts);
    reveal(Seq::filter);
    log@.lemma_filter_len(
        |e: (Seq<char>, Interval)|
            (match opts.from {
                Some(f) => f <= e.1.start,
                None => true,
            }) && (match opts.to {
                Some(t) => e.1.start <= t,
                None => true,
            }),
    );
    assert(log.entries@.len() == log.entries.len());
    if opts.offset is None && opts.limit is None {
        assert(m.subrange(0, m.len() as int) =~= m);
    }
}

} // verus!
