//! Where log lines are kept: a `.hours` file (or stdin and stdout), or an
//! SQLite table of sessions.
//!
//! Reading and writing the store is the caller's I/O; this module decides
//! what the bytes, texts and queries are: the text appended for new lines,
//! where the last line of a file begins, how far a file is cut to drop it,
//! and the SQL a query of sessions becomes.
use crate::entry::{line_model, line_text, valid_interval, Entry, EntryKind, EntryLine, Interval};
use crate::log::QueryOpts;
use crate::text::{first_newline, lemma_first_newline, lines_of, push_str, strip_cr, trim_end, trim_end_of};
use crate::time::{valid_time, MAX_TIMESTAMP, MIN_TIMESTAMP, NANOS_PER_SECOND};
use std::path::PathBuf;
use vstd::prelude::*;
use vstd::utf8::{decode_utf8, valid_utf8};

verus! {

/// `std::path::PathBuf`, carried through unchanged.
#[verifier::external_type_specification]
#[verifier::external_body]
pub struct ExPathBuf(PathBuf);

/// A store of log lines in a file; `path = None` means stdin for reads and
/// stdout for writes.
pub struct FileStorage {
    path: Option<PathBuf>,
}

impl FileStorage {
    /// A store at `path`.
    pub fn new(path: Option<PathBuf>) -> (r: FileStorage)
        ensures
            r.path() == path,
    {
        FileStorage { path }
    }

    /// The file, if not the standard streams.
    pub closed spec fn path(&self) -> Option<PathBuf> {
        self.path
    }

    /// The file, if not the standard streams.
    pub fn location(&self) -> (r: &Option<PathBuf>)
        ensures
            *r == self.path(),
    {
        &self.path
    }
}

/// The text of `lines` each written on a line of its own, after a newline:
/// what `FileStorage` appends.
pub open spec fn prefixed_text(lines: Seq<EntryLine>) -> Seq<char>
    decreases lines.len(),
{
    if lines.len() == 0 {
        Seq::empty()
    } else {
        let l = lines.last();
        prefixed_text(lines.drop_last()) + seq!['\n'] + line_text(l.kind, l.dt, l.desc@)
    }
}

/// The text of `lines`, each followed by a newline: what a file repository
/// appends.
pub open spec fn terminated_text(lines: Seq<EntryLine>) -> Seq<char>
    decreases lines.len(),
{
    if lines.len() == 0 {
        Seq::empty()
    } else {
        let l = lines.last();
        terminated_text(lines.drop_last()) + line_text(l.kind, l.dt, l.desc@) + seq!['\n']
    }
}

/// Builds the text appended for `lines`: each preceded by a newline when
/// `leading` is set, otherwise each followed by one.
fn lines_text(lines: &[EntryLine], leading: bool) -> (r: String)
    requires
        forall|i: int| 0 <= i < lines@.len() ==> valid_time(#[trigger] lines@[i].dt as int),
    ensures
        leading ==> r@ == prefixed_text(lines@),
        !leading ==> r@ == terminated_text(lines@),
{
    let mut out = String::new();
    let mut i: usize = 0;
    while i < lines.len()
        invariant
            i <= lines@.len(),
            forall|j: int| 0 <= j < lines@.len() ==> valid_time(#[trigger] lines@[j].dt as int),
            leading ==> out@ == prefixed_text(lines@.take(i as int)),
            !leading ==> out@ == terminated_text(lines@.take(i as int)),
        decreases lines@.len() - i,
    {
        let text = lines[i].to_line();
        let ghost o0 = out@;
        if leading {
            push_str(&mut out, "\n");
            push_str(&mut out, text.as_str());
        } else {
            push_str(&mut out, text.as_str());
            push_str(&mut out, "\n");
        }
        proof {
            reveal_strlit("\n");
            assert(lines@.take(i + 1).drop_last() =~= lines@.take(i as int));
            assert(lines@.take(i + 1).last() == lines@[i as int]);
            if leading {
                assert(out@ =~= o0 + seq!['\n'] + text@);
            } else {
                assert(out@ =~= o0 + text@ + seq!['\n']);
            }
        }
        i = i + 1;
    }
    assert(lines@.take(i as int) =~= lines@);
    out
}

/// The text `FileStorage` appends for `lines`: each on a new line.
pub fn prefixed_lines(lines: &[EntryLine]) -> (r: String)
    requires
        forall|i: int| 0 <= i < lines@.len() ==> valid_time(#[trigger] lines@[i].dt as int),
    ensures
        r@ == prefixed_text(lines@),
{
    lines_text(lines, true)
}

/// The text a file repository appends for `lines`: each ending with a
/// newline.
pub fn terminated_lines(lines: &[EntryLine]) -> (r: String)
    requires
        forall|i: int| 0 <= i < lines@.len() ==> valid_time(#[trigger] lines@[i].dt as int),
    ensures
        r@ == terminated_text(lines@),
{
    lines_text(lines, false)
}

/// The byte of a newline.
pub open spec fn newline() -> u8 {
    10
}

/// Position of the last newline among the first `end` bytes.
pub open spec fn last_newline(b: Seq<u8>, end: int) -> Option<int>
    decreases end,
{
    if end <= 0 {
        None
    } else if b[end - 1] == newline() {
        Some(end - 1)
    } else {
        last_newline(b, end - 1)
    }
}

/// Position of the first newline at or after `from`, or the end.
pub open spec fn line_end(b: Seq<u8>, from: int) -> int
    decreases b.len() - from,
{
    if from >= b.len() {
        b.len() as int
    } else if b[from] == newline() {
        from
    } else {
        line_end(b, from + 1)
    }
}

/// Where the last line of a file's bytes begins: after the last newline
/// that is not the final byte; with none, at the start of the file.
pub open spec fn last_line_start(b: Seq<u8>) -> int {
    match last_newline(b, b.len() - 1) {
        Some(p) => p + 1,
        None => 0,
    }
}

/// The bytes of the last line of a non-empty file: from where reading
/// begins up to the next newline or the end.  `None` for an empty file.
pub open spec fn last_line_range(b: Seq<u8>) -> Option<(int, int)> {
    if b.len() == 0 {
        None
    } else {
        Some((last_line_start(b), line_end(b, last_line_start(b))))
    }
}

/// The length a file is cut to when its last line is dropped: just past
/// the last newline before the final byte, or nothing at all.
pub open spec fn cut_length(b: Seq<u8>) -> int {
    if b.len() == 0 {
        0
    } else {
        match last_newline(b, b.len() - 1) {
            Some(p) => p + 1,
            None => 0,
        }
    }
}

proof fn lemma_last_newline_bounds(b: Seq<u8>, end: int)
    requires
        end <= b.len(),
    ensures
        last_newline(b, end) matches Some(p) ==> 0 <= p < end && b[p] == newline(),
        last_newline(b, end) is None ==> forall|q: int| 0 <= q < end ==> b[q] != newline(),
    decreases end,
{
    if end > 0 {
        lemma_last_newline_bounds(b, end - 1);
    }
}

/// The position of the last newline among the first `end` bytes.
fn find_last_newline(b: &[u8], end: usize) -> (r: Option<usize>)
    requires
        end <= b@.len(),
    ensures
        r matches Some(p) ==> last_newline(b@, end as int) == Some(p as int),
        r is None ==> last_newline(b@, end as int) is None,
{
    let mut k = end;
    while k > 0
        invariant
            k <= end <= b@.len(),
            last_newline(b@, end as int) == last_newline(b@, k as int),
        decreases k,
    {
        if b[k - 1] == 10u8 {
            return Some(k - 1);
        }
        k = k - 1;
    }
    None
}

/// The byte range `[start, end)` of the last line of a file with contents
/// `b`, without its newline; `None` when the file is empty.  A file of a
/// single line gives that whole line.
pub fn last_line_span(b: &[u8]) -> (r: Option<(usize, usize)>)
    ensures
        match last_line_range(b@) {
            None => r is None,
            Some((s, e)) => r matches Some((x, y)) && x == s && y == e,
        },
{
    let n = b.len();
    if n == 0 {
        return None;
    }
    proof {
        lemma_last_newline_bounds(b@, n - 1);
    }
    let start = match find_last_newline(b, n - 1) {
        Some(p) => p + 1,
        None => 0,
    };
    let mut e = start;
    while e < n
        invariant
            start <= e <= n,
            n == b@.len(),
            line_end(b@, start as int) == line_end(b@, e as int),
        ensures
            line_end(b@, start as int) == e,
        decreases n - e,
    {
        if b[e] == 10u8 {
            break;
        }
        e = e + 1;
    }
    Some((start, e))
}

/// The length to cut a file with contents `b` to, dropping its last line.
pub fn truncated_len(b: &[u8]) -> (r: usize)
    ensures
        r == cut_length(b@),
{
    let n = b.len();
    if n == 0 {
        return 0;
    }
    match find_last_newline(b, n - 1) {
        Some(p) => {
            proof {
                lemma_last_newline_bounds(b@, n - 1);
            }
            p + 1
        },
        None => 0,
    }
}

/// `std::str::from_utf8`: the text that the bytes encode, when they are
/// valid UTF-8; `None` when they are not.
#[verifier::external_body]
fn utf8_text(b: &[u8]) -> (r: Option<&str>)
    ensures
        match r {
            Some(t) => valid_utf8(b@) && t@ == decode_utf8(b@),
            None => !valid_utf8(b@),
        },
{
    std::str::from_utf8(b).ok()
}

/// A text reads as a START line.
pub open spec fn starts_session(t: Seq<char>) -> bool {
    line_model(t) matches Some((k, _, _)) && k == EntryKind::Start
}

/// Why the last line of a file cannot be read.
#[derive(Debug, Clone, Copy, PartialEq, Eq, Structural)]
pub enum LastLineError {
    /// Its bytes are not UTF-8.
    NotUtf8,
}

/// Renaming the running session replaces the START that records it: when
/// the last line of the file (without trailing whitespace) reads as a
/// START line, the file is first cut to drop it.  Gives the length to cut
/// the file with contents `b` to, `None` when nothing is cut, and fails
/// when the last line is not UTF-8.
pub fn start_line_cut(b: &[u8]) -> (r: Result<Option<usize>, LastLineError>)
    ensures
        match last_line_range(b@) {
            None => r == Ok::<Option<usize>, LastLineError>(None),
            Some((s, e)) => if !valid_utf8(b@.subrange(s, e)) {
                r == Err::<Option<usize>, LastLineError>(LastLineError::NotUtf8)
            } else if starts_session(trim_end_of(decode_utf8(b@.subrange(s, e)))) {
                r == Ok::<Option<usize>, LastLineError>(Some(cut_length(b@) as usize))
            } else {
                r == Ok::<Option<usize>, LastLineError>(None)
            },
        },
{
    match last_line_span(b) {
        None => Ok(None),
        Some((s, e)) => {
            proof {
                lemma_last_line_range_bounds(b@);
            }
            let mut bytes: Vec<u8> = Vec::new();
            let mut i = s;
            while i < e
                invariant
                    s <= i <= e <= b@.len(),
                    bytes@ == b@.subrange(s as int, i as int),
                decreases e - i,
            {
                bytes.push(b[i]);
                assert(bytes@ =~= b@.subrange(s as int, i + 1));
                i = i + 1;
            }
            match utf8_text(bytes.as_slice()) {
                None => Err(LastLineError::NotUtf8),
                Some(text) => {
                    let t = trim_end(text);
                    match EntryLine::parse(t) {
                        Ok(line) => {
                            if line.kind == EntryKind::Start {
                                Ok(Some(truncated_len(b)))
                            } else {
                                Ok(None)
                            }
                        },
                        Err(_) => Ok(None),
                    }
                },
            }
        },
    }
}

proof fn lemma_last_line_range_bounds(b: Seq<u8>)
    requires
        b.len() > 0,
    ensures
        0 <= last_line_start(b) <= line_end(b, last_line_start(b)) <= b.len(),
{
    lemma_last_newline_bounds(b, b.len() - 1);
    lemma_line_end_bounds(b, last_line_start(b));
}

proof fn lemma_line_end_bounds(b: Seq<u8>, from: int)
    requires
        0 <= from,
    ensures
        from <= b.len() ==> from <= line_end(b, from) <= b.len(),
        from > b.len() ==> line_end(b, from) == b.len(),
    decreases b.len() - from,
{
    if from < b.len() && b[from] != newline() {
        lemma_line_end_bounds(b, from + 1);
    }
}

/// A non-empty file whose last byte is not a newline needs one before new
/// lines are appended, so the first of them is not merged into its last
/// line.
pub fn needs_newline(b: &[u8]) -> (r: bool)
    ensures
        r == (b@.len() > 0 && b@.last() != newline()),
{
    let n = b.len();
    n > 0 && b[n - 1] != 10u8
}

/// The SQL text that lists sessions of `opts`, and its parameters in order.
pub open spec fn list_query_text(opts: QueryOpts) -> Seq<char> {
    "SELECT desc, start_ts, end_ts FROM session WHERE 1=1"@ + (if opts.from is Some {
        " AND start_ts >= ?"@
    } else {
        Seq::empty()
    }) + (if opts.to is Some {
        " AND start_ts <= ?"@
    } else {
        Seq::empty()
    }) + " ORDER BY start_ts ASC"@ + (if opts.limit is Some {
        " LIMIT ?"@
    } else if opts.offset is Some {
        " LIMIT -1"@
    } else {
        Seq::empty()
    }) + (if opts.offset is Some {
        " OFFSET ?"@
    } else {
        Seq::empty()
    })
}

/// The parameters of the listing query, in the order of their `?`.
pub open spec fn list_query_params(opts: QueryOpts) -> Seq<i64> {
    (match opts.from {
        Some(f) => seq![(f / 1000000000) as i64],
        None => Seq::empty(),
    }) + (match opts.to {
        Some(t) => seq![(t / 1000000000) as i64],
        None => Seq::empty(),
    }) + (match opts.limit {
        Some(l) => seq![l as i64],
        None => Seq::empty(),
    }) + (match opts.offset {
        Some(o) => seq![o as i64],
        None => Seq::empty(),
    })
}

/// The whole seconds at or before the time `t` (`timestamp`), as an SQL
/// integer (bits kept, as `as` does).
pub fn seconds_param(t: i128) -> (r: i64)
    ensures
        r == (t / 1000000000) as i64,
{
    let q: i128 = if t >= 0 {
        t / NANOS_PER_SECOND
    } else {
        let u: i128 = -(t + 1);
        assert((u / 1000000000) * 1000000000 + u % 1000000000 == u) by (nonlinear_arith)
            requires u >= 0;
        assert(t / 1000000000 == -(u / 1000000000) - 1) by (nonlinear_arith)
            requires
                u >= 0,
                t == -u - 1,
                (u / 1000000000) * 1000000000 + u % 1000000000 == u,
                0 <= u % 1000000000 < 1000000000,
        ;
        -(u / NANOS_PER_SECOND) - 1
    };
    q as i64
}

/// A count as an SQL integer (bits kept, as `as` does).
fn count_param(n: usize) -> (r: i64)
    ensures
        r == n as i64,
{
    n as i64
}

/// The SQL query listing the sessions `opts` selects, oldest first, and
/// its parameters.
pub fn list_query(opts: &QueryOpts) -> (r: (String, Vec<i64>))
    ensures
        r.0@ == list_query_text(*opts),
        r.1@ == list_query_params(*opts),
{
    let mut q = String::new();
    let mut params: Vec<i64> = Vec::new();
    push_str(&mut q, "SELECT desc, start_ts, end_ts FROM session WHERE 1=1");
    let ghost q0 = q@;
    match opts.from {
        Some(f) => {
            push_str(&mut q, " AND start_ts >= ?");
            params.push(seconds_param(f));
        },
        None => {},
    }
    let ghost q1 = q@;
    let ghost p1 = params@;
    match opts.to {
        Some(t) => {
            push_str(&mut q, " AND start_ts <= ?");
            params.push(seconds_param(t));
        },
        None => {},
    }
    let ghost q2 = q@;
    let ghost p2 = params@;
    push_str(&mut q, " ORDER BY start_ts ASC");
    let ghost q3 = q@;
    match opts.limit {
        Some(l) => {
            push_str(&mut q, " LIMIT ?");
            params.push(count_param(l));
        },
        None => {
            if opts.offset.is_some() {
                push_str(&mut q, " LIMIT -1");
            }
        },
    }
    let ghost q4 = q@;
    let ghost p4 = params@;
    match opts.offset {
        Some(o) => {
            push_str(&mut q, " OFFSET ?");
            params.push(count_param(o));
        },
        None => {},
    }
    proof {
        assert(q1 =~= q0 + (if opts.from is Some {
            " AND start_ts >= ?"@
        } else {
            Seq::empty()
        }));
        assert(q2 =~= q1 + (if opts.to is Some {
            " AND start_ts <= ?"@
        } else {
            Seq::empty()
        }));
        assert(q4 =~= q3 + (if opts.limit is Some {
            " LIMIT ?"@
        } else if opts.offset is Some {
            " LIMIT -1"@
        } else {
            Seq::empty()
        }));
        assert(q@ =~= list_query_text(*opts));
        assert(params@ =~= list_query_params(*opts));
    }
    (q, params)
}

/// A stored time (whole seconds) as a point in time; out of range it is
/// `None`.
pub open spec fn stored_time(ts: i64) -> Option<i128> {
    if MIN_TIMESTAMP <= ts <= MAX_TIMESTAMP {
        Some((ts * 1000000000) as i128)
    } else {
        None
    }
}

/// The session a table row holds: a start out of range reads as the epoch,
/// an end out of range as none.
pub open spec fn row_interval(start_ts: i64, end_ts: Option<i64>) -> Interval {
    Interval {
        start: match stored_time(start_ts) {
            Some(t) => t,
            None => 0,
        },
        end: match end_ts {
            Some(e) => stored_time(e),
            None => None,
        },
    }
}

/// The time of stored whole seconds, when in range.
fn time_of_stored(ts: i64) -> (r: Option<i128>)
    ensures
        r == stored_time(ts),
{
    if MIN_TIMESTAMP <= ts && ts <= MAX_TIMESTAMP {
        Some(ts as i128 * NANOS_PER_SECOND)
    } else {
        None
    }
}

/// The session of a table row `(desc, start_ts, end_ts)`.
pub fn entry_of_row(desc: String, start_ts: i64, end_ts: Option<i64>) -> (r: Entry)
    ensures
        r.desc == desc,
        r.interval == row_interval(start_ts, end_ts),
        valid_interval(r.interval),
{
    let start = match time_of_stored(start_ts) {
        Some(t) => t,
        None => 0,
    };
    let end = match end_ts {
        Some(e) => time_of_stored(e),
        None => None,
    };
    Entry { desc, interval: Interval { start, end } }
}

/// What starting a session at `dt` does to an open session of the table
/// (known by its start): it is closed one second before `dt`.  Gives the
/// open session's start and its new end, in whole seconds.
pub fn auto_close(open_start: Option<i64>, dt: i128) -> (r: Option<(i64, i64)>)
    requires
        open_start is Some ==> valid_time(dt - 1000000000),
    ensures
        r == (match open_start {
            Some(s) => Some((s, ((dt - 1000000000) / 1000000000) as i64)),
            None => None,
        }),
{
    match open_start {
        Some(s) => Some((s, seconds_param(dt - NANOS_PER_SECOND))),
        None => None,
    }
}

/// A line's text can be written on a line of its own: it holds no newline
/// and does not end with a carriage return.
pub open spec fn single_line(t: Seq<char>) -> bool {
    &&& forall|j: int| 0 <= j < t.len() ==> t[j] != '\n'
    &&& !(t.len() > 0 && t.last() == '\r')
}

/// The texts of the lines.
pub open spec fn line_texts(lines: Seq<EntryLine>) -> Seq<Seq<char>> {
    lines.map_values(|l: EntryLine| line_text(l.kind, l.dt, l.desc@))
}

/// Text that is empty or ends with a newline splits into its own lines
/// followed by those of whatever comes after it.
proof fn lemma_lines_after_newline(c: Seq<char>, d: Seq<char>)
    requires
        c.len() == 0 || c.last() == '\n',
    ensures
        lines_of(c + d) == lines_of(c) + lines_of(d),
    decreases c.len(),
{
    if c.len() == 0 {
        assert(c + d =~= d);
        assert(lines_of(c) + lines_of(d) =~= lines_of(d));
    } else {
        let i = first_newline(c);
        lemma_first_newline_bound(c);
        if i == c.len() {
            lemma_before_first_newline(c, c.len() - 1);
        }
        assert(c[i as int] == '\n');
        assert forall|j: int| 0 <= j < i implies (c + d)[j] != '\n' by {
            lemma_before_first_newline(c, j);
        }
        lemma_first_newline(c + d, i as int);
        assert((c + d).take(i as int) =~= c.take(i as int));
        let rest = c.skip((i + 1) as int);
        assert((c + d).skip((i + 1) as int) =~= rest + d);
        if rest.len() > 0 {
            assert(rest.last() == c.last());
        }
        lemma_lines_after_newline(rest, d);
        assert(lines_of(c + d) =~= seq![strip_cr(c.take(i as int))] + (lines_of(rest) + lines_of(d)));
    }
}

proof fn lemma_first_newline_bound(s: Seq<char>)
    ensures
        first_newline(s) <= s.len(),
        first_newline(s) < s.len() ==> s[first_newline(s) as int] == '\n',
    decreases s.len(),
{
    if s.len() > 0 && s[0] != '\n' {
        lemma_first_newline_bound(s.drop_first());
    }
}

proof fn lemma_before_first_newline(s: Seq<char>, j: int)
    requires
        0 <= j < first_newline(s),
    ensures
        s[j] != '\n',
    decreases s.len(),
{
    lemma_first_newline_bound(s);
    assert(s.len() > 0 && s[0] != '\n');
    if j > 0 {
        assert(first_newline(s.drop_first()) == first_newline(s) - 1);
        lemma_before_first_newline(s.drop_first(), j - 1);
        assert(s[j] == s.drop_first()[j - 1]);
    }
}

/// Law: appending lines to a log that is empty or ends with a newline
/// (which `needs_newline` arranges) leaves its lines as they were and adds
/// the texts of the new lines, in order, as the next lines, as long as each
/// text fits on one line.
pub proof fn lemma_appended_lines_read_back(c: Seq<char>, lines: Seq<EntryLine>)
    requires
        c.len() == 0 || c.last() == '\n',
        forall|i: int| 0 <= i < line_texts(lines).len() ==> single_line(#[trigger] line_texts(lines)[i]),
    ensures
        lines_of(c + terminated_text(lines)) == lines_of(c) + line_texts(lines),
    decreases lines.len(),
{
    if lines.len() == 0 {
        assert(c + terminated_text(lines) =~= c);
        assert(lines_of(c) + line_texts(lines) =~= lines_of(c));
    } else {
        let p = lines.drop_last();
        let l = lines.last();
        let t = line_text(l.kind, l.dt, l.desc@);
        assert forall|i: int| 0 <= i < line_texts(p).len() implies single_line(
            #[trigger] line_texts(p)[i],
        ) by {
            assert(line_texts(p)[i] == line_texts(lines)[i]);
        }
        lemma_appended_lines_read_back(c, p);
        let front = c + terminated_text(p);
        assert(c + terminated_text(lines) =~= front + (t + seq!['\n']));
        assert(front.len() == 0 || front.last() == '\n') by {
            if p.len() > 0 {
                assert(terminated_text(p).last() == '\n');
            } else {
                assert(front =~= c);
            }
        }
        lemma_lines_after_newline(front, t + seq!['\n']);
        assert(line_texts(lines)[lines.len() - 1] == t);
        assert(single_line(t));
        let u = t + seq!['\n'];
        lemma_first_newline(u, t.len() as int);
        assert(u.take(t.len() as int) =~= t);
        assert(u.skip((t.len() + 1) as int) =~= Seq::<char>::empty());
        assert(strip_cr(t) == t);
        assert(lines_of(Seq::<char>::empty()) =~= Seq::<Seq<char>>::empty());
        assert(lines_of(u) =~= seq![t]);
        assert(line_texts(lines) =~= line_texts(p).push(t));
    }
}

/// Law: dropping the last line cuts a non-empty file exactly where its
/// last line begins: right after a newline, or at the start of a file of a
/// single line.
pub proof fn lemma_cut_at_last_line(b: Seq<u8>)
    requires
        b.len() > 0,
    ensures
        cut_length(b) == last_line_start(b),
        0 <= cut_length(b) < b.len(),
        cut_length(b) > 0 ==> b[cut_length(b) - 1] == newline(),
{
    lemma_last_newline_bounds(b, b.len() - 1);
}

} // verus!
