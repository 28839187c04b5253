//! Lines of a `.hours` log and the work sessions they describe.
//!
//! A line reads `KIND - DATETIME - DESCRIPTION`, where KIND is `START` or
//! `END` (any case), DATETIME is `YYYY-MM-DD HH:MM:SS` or
//! `YYYY-MM-DDTHH:MM:SS`, and the description is normalised to lowercase.
//! A START line followed by the END line of the same task is one session.
use crate::error::ParseError;
use itertools::Itertools;
use crate::text::{
    chars_of, lowercase, push_str, spec_lowercase, spec_trim, string_of, string_views, trim,
};
use crate::time::{
    datetime_of, datetime_shape, format_datetime, four_digit_year, is_digit, parse_datetime,
    secs_of, time_text, valid_time,
};
use vstd::prelude::*;

verus! {

/// Whether a line opens or closes a session.
#[derive(Debug, Clone, Copy, PartialEq, Eq, Structural)]
pub enum EntryKind {
    Start,
    End,
}

/// The keyword a kind is written with.
pub open spec fn kind_label(k: EntryKind) -> Seq<char> {
    match k {
        EntryKind::Start => "START"@,
        EntryKind::End => "END"@,
    }
}

/// The kind a keyword field denotes: its lowercase form, trimmed, must be
/// `start` or `end`.
pub open spec fn kind_of(s: Seq<char>) -> Option<EntryKind> {
    let t = spec_trim(spec_lowercase(s));
    if t == "start"@ {
        Some(EntryKind::Start)
    } else if t == "end"@ {
        Some(EntryKind::End)
    } else {
        None
    }
}

/// Whether two strings hold the same characters.
pub fn str_eq(a: &str, b: &str) -> (r: bool)
    ensures
        r == (a@ == b@),
{
    let x = chars_of(a);
    let y = chars_of(b);
    if x.len() != y.len() {
        return false;
    }
    let mut i: usize = 0;
    while i < x.len()
        invariant
            x@ == a@,
            y@ == b@,
            x@.len() == y@.len(),
            i <= x@.len(),
            forall|j: int| 0 <= j < i ==> x@[j] == y@[j],
        decreases x@.len() - i,
    {
        if x[i] != y[i] {
            return false;
        }
        i = i + 1;
    }
    assert(x@ =~= y@);
    true
}

impl EntryKind {
    /// The keyword the kind is written with (`START` or `END`).
    pub fn label(&self) -> (r: &'static str)
        ensures
            r@ == kind_label(*self),
    {
        match self {
            EntryKind::Start => "START",
            EntryKind::End => "END",
        }
    }

    /// Reads a keyword field, ignoring case and surrounding whitespace.
    pub fn parse(s: &str) -> (r: Result<EntryKind, ParseError>)
        ensures
            match r {
                Ok(k) => kind_of(s@) == Some(k),
                Err(e) => kind_of(s@) is None && e is UnknownEntryKind,
            },
    {
        let lower = lowercase(s);
        let t = trim(lower.as_str());
        if str_eq(t, "start") {
            Ok(EntryKind::Start)
        } else if str_eq(t, "end") {
            Ok(EntryKind::End)
        } else {
            Err(ParseError::UnknownEntryKind)
        }
    }
}

impl std::str::FromStr for EntryKind {
    type Err = ParseError;

    /// Reads a keyword field, as `EntryKind::parse` does.
    fn from_str(s: &str) -> (r: Result<EntryKind, ParseError>)
        ensures
            match r {
                Ok(k) => kind_of(s@) == Some(k),
                Err(e) => kind_of(s@) is None && e is UnknownEntryKind,
            },
    {
        EntryKind::parse(s)
    }
}

/// One line of the log.
#[derive(Debug)]
pub struct EntryLine {
    pub kind: EntryKind,
    pub desc: String,
    pub dt: i128,
}

/// Whether `" - "` starts at position `i` of `s`.
pub open spec fn sep_at(s: Seq<char>, i: int) -> bool {
    &&& 0 <= i
    &&& i + 3 <= s.len()
    &&& s[i] == ' '
    &&& s[i + 1] == '-'
    &&& s[i + 2] == ' '
}

/// First position at or after `from` where `" - "` starts.
pub open spec fn first_sep(s: Seq<char>, from: int) -> Option<int>
    decreases s.len() - from,
{
    if from < 0 || from + 3 > s.len() {
        None
    } else if sep_at(s, from) {
        Some(from)
    } else {
        first_sep(s, from + 1)
    }
}

/// The three fields of a line split at the first two `" - "` separators
/// (`splitn(3, " - ")`), or `None` when there are fewer than two.
pub open spec fn fields_of(s: Seq<char>) -> Option<(Seq<char>, Seq<char>, Seq<char>)> {
    match first_sep(s, 0) {
        None => None,
        Some(i) => match first_sep(s, i + 3) {
            None => None,
            Some(j) => Some((s.subrange(0, i), s.subrange(i + 3, j), s.subrange(j + 3, s.len() as int))),
        },
    }
}

/// What a log line reads as: kind, description and time, or `None` when it
/// does not parse.
pub open spec fn line_model(s: Seq<char>) -> Option<(EntryKind, Seq<char>, i128)> {
    match fields_of(s) {
        None => None,
        Some((a, b, c)) => match kind_of(a) {
            None => None,
            Some(k) => match datetime_of(b) {
                None => None,
                Some(t) => Some((k, desc_of(c), t)),
            },
        },
    }
}

/// `e` is the error reading the line `s` gives: `Malformatted` without
/// three fields, else `UnknownEntryKind` for a bad keyword, else
/// `TimeFormat`.
pub open spec fn line_error(s: Seq<char>, e: ParseError) -> bool {
    match fields_of(s) {
        None => e is Malformatted,
        Some((a, b, c)) => if kind_of(a) is None {
            e is UnknownEntryKind
        } else {
            datetime_of(b) is None && e is TimeFormat
        },
    }
}

/// The kind, description and time of a line.
pub open spec fn line_view(l: EntryLine) -> (EntryKind, Seq<char>, i128) {
    (l.kind, l.desc@, l.dt)
}

/// The text of a line: `KIND - DATETIME - DESCRIPTION`.
pub open spec fn line_text(kind: EntryKind, dt: i128, desc: Seq<char>) -> Seq<char> {
    kind_label(kind) + " - "@ + time_text(dt as int) + " - "@ + desc
}

/// The description a description field denotes: trimmed, then lowercase.
pub open spec fn desc_of(s: Seq<char>) -> Seq<char> {
    spec_lowercase(spec_trim(s))
}

proof fn lemma_first_sep(s: Seq<char>, from: int, k: int)
    requires
        0 <= from <= k,
        forall|j: int| from <= j < k ==> !sep_at(s, j),
        k + 3 > s.len() || sep_at(s, k),
    ensures
        first_sep(s, from) == (if k + 3 > s.len() {
            None::<int>
        } else {
            Some(k)
        }),
    decreases k - from,
{
    if from + 3 <= s.len() && from < k {
        lemma_first_sep(s, from + 1, k);
    }
}

proof fn lemma_none_after(s: Seq<char>, from: int)
    requires
        from >= 0,
        from + 3 > s.len(),
    ensures
        first_sep(s, from) is None,
{
}

/// First position at or after `from` where `" - "` starts in `chars`.
fn find_sep(chars: &Vec<char>, from: usize) -> (r: Option<usize>)
    ensures
        match r {
            Some(i) => first_sep(chars@, from as int) == Some(i as int) && from <= i && i + 3
                <= chars@.len(),
            None => first_sep(chars@, from as int) is None,
        },
{
    let n = chars.len();
    if from > n || n - from < 3 {
        proof {
            lemma_none_after(chars@, from as int);
        }
        return None;
    }
    let mut k = from;
    while k <= n - 3
        invariant
            n == chars@.len(),
            from <= k,
            from + 3 <= n,
            forall|j: int| from <= j < k ==> !sep_at(chars@, j),
        decreases n - k,
    {
        if chars[k] == ' ' && chars[k + 1] == '-' && chars[k + 2] == ' ' {
            proof {
                lemma_first_sep(chars@, from as int, k as int);
            }
            return Some(k);
        }
        k = k + 1;
    }
    proof {
        lemma_first_sep(chars@, from as int, k as int);
    }
    None
}

/// A keyword, lowered and trimmed, reads as its kind.
proof fn lemma_kind_label_reads_back(k: EntryKind)
    ensures
        kind_of(kind_label(k)) == Some(k),
{
    reveal_strlit("START");
    reveal_strlit("END");
    reveal_strlit("start");
    reveal_strlit("end");
    let l = kind_label(k);
    assert(crate::text::ascii_only(l));
    match k {
        EntryKind::Start => {
            assert(crate::text::ascii_lower(l) =~= "start"@);
            assert(spec_trim("start"@) == "start"@);
        },
        EntryKind::End => {
            assert(crate::text::ascii_lower(l) =~= "end"@);
            assert(spec_trim("end"@) == "end"@);
        },
    }
}

/// Law: a written line reads back as the line it was written from, when its
/// date-time text has chrono's shape and reads back to its time, and its
/// description is already trimmed and lowercase.  `to_line` meets the
/// date-time conditions for every year of four digits.
pub proof fn lemma_line_text_reads_back(kind: EntryKind, dt: i128, desc: Seq<char>)
    requires
        datetime_shape(time_text(dt as int)),
        datetime_of(time_text(dt as int)) == Some(dt),
        desc_of(desc) == desc,
    ensures
        line_model(line_text(kind, dt, desc)) == Some((kind, desc, dt)),
{
    reveal_strlit("START");
    reveal_strlit("END");
    reveal_strlit(" - ");
    let k = kind_label(kind);
    let d = time_text(dt as int);
    let m = d.len() as int;
    let s = line_text(kind, dt, desc);
    let n = k.len() as int;
    assert(s =~= k + " - "@ + d + " - "@ + desc);
    assert(s.len() == n + 6 + m + desc.len());
    assert forall|j: int| 0 <= j < n implies !sep_at(s, j) by {
        assert(s[j] == k[j]);
    }
    assert(s[n] == ' ' && s[n + 1] == '-' && s[n + 2] == ' ');
    lemma_first_sep(s, 0, n);
    assert forall|j: int| n + 3 <= j < n + 3 + m implies !sep_at(s, j) by {
        assert(s[j] == d[j - n - 3]);
        if s[j] == ' ' {
            assert(j - n - 3 == 10);
            assert(s[j + 1] == d[11]);
            assert(is_digit(d[11]));
        }
    }
    assert(s[n + 3 + m] == ' ' && s[n + 4 + m] == '-' && s[n + 5 + m] == ' ');
    lemma_first_sep(s, n + 3, n + 3 + m);
    assert(s.subrange(0, n) =~= k);
    assert(s.subrange(n + 3, n + 3 + m) =~= d);
    assert(s.subrange(n + 6 + m, s.len() as int) =~= desc);
    lemma_kind_label_reads_back(kind);
}

impl EntryLine {
    /// The line as it is written to the log.
    pub fn to_line(&self) -> (r: String)
        requires
            valid_time(self.dt as int),
        ensures
            r@ == line_text(self.kind, self.dt, self.desc@),
            four_digit_year(secs_of(self.dt as int)) && desc_of(self.desc@) == self.desc@ ==> line_model(r@)
                == Some(line_view(*self)),
    {
        let mut out = String::new();
        push_str(&mut out, self.kind.label());
        push_str(&mut out, " - ");
        let dt = format_datetime(self.dt);
        push_str(&mut out, dt.as_str());
        push_str(&mut out, " - ");
        push_str(&mut out, self.desc.as_str());
        assert(out@ =~= line_text(self.kind, self.dt, self.desc@));
        proof {
            if four_digit_year(secs_of(self.dt as int)) && desc_of(self.desc@) == self.desc@ {
                lemma_line_text_reads_back(self.kind, self.dt, self.desc@);
            }
        }
        out
    }

    /// Reads one log line.  It fails with `Malformatted` when the line has
    /// fewer than three ` - `-separated fields, then with
    /// `UnknownEntryKind` for a bad keyword, then with `TimeFormat` for a
    /// bad date-time.
    pub fn parse(s: &str) -> (r: Result<EntryLine, ParseError>)
        ensures
            match r {
                Ok(line) => line_model(s@) == Some(line_view(line)) && valid_time(line.dt as int),
                Err(e) => line_model(s@) is None && line_error(s@, e),
            },
    {
        let chars = chars_of(s);
        let first = match find_sep(&chars, 0) {
            Some(i) => i,
            None => return Err(ParseError::Malformatted),
        };
        let found = find_sep(&chars, first + 3);
        let second = match found {
            Some(j) => {
                assert(j + 3 <= chars@.len());
                j
            },
            None => return Err(ParseError::Malformatted),
        };
        let kind_field = string_of(&chars, 0, first);
        let dt_field = string_of(&chars, first + 3, second);
        let desc_field = string_of(&chars, second + 3, chars.len());
        let kind = match EntryKind::parse(kind_field.as_str()) {
            Ok(k) => k,
            Err(e) => return Err(e),
        };
        let dt = match parse_datetime(dt_field.as_str()) {
            Ok(t) => t,
            Err(e) => return Err(ParseError::TimeFormat(e)),
        };
        let desc = lowercase(trim(desc_field.as_str()));
        Ok(EntryLine { kind, desc, dt })
    }
}

impl std::str::FromStr for EntryLine {
    type Err = ParseError;

    /// Reads one log line, as `EntryLine::parse` does.
    fn from_str(s: &str) -> (r: Result<EntryLine, ParseError>)
        ensures
            match r {
                Ok(line) => line_model(s@) == Some(line_view(line)) && valid_time(line.dt as int),
                Err(e) => line_model(s@) is None && line_error(s@, e),
            },
    {
        EntryLine::parse(s)
    }
}

/// A span of time: closed when it has an end, open (still running) when not.
#[derive(Debug, Clone, Copy, PartialEq, Eq, Structural)]
pub struct Interval {
    pub start: i128,
    pub end: Option<i128>,
}

/// Length of a closed interval in nanoseconds.
pub open spec fn interval_duration(i: Interval) -> int {
    match i.end {
        Some(e) => e - i.start,
        None => 0,
    }
}

/// Both ends of an interval are times chrono can represent.
pub open spec fn valid_interval(i: Interval) -> bool {
    &&& valid_time(i.start as int)
    &&& (i.end matches Some(e) ==> valid_time(e as int))
}

impl Interval {
    /// Length of the closed interval, end minus start, in nanoseconds.
    pub fn duration(&self) -> (r: i128)
        requires
            self.end is Some,
            valid_interval(*self),
        ensures
            r == interval_duration(*self),
    {
        match self.end {
            Some(e) => e - self.start,
            None => 0,
        }
    }
}

/// A work session: a description and when it ran.
#[derive(Debug)]
pub struct Entry {
    pub desc: String,
    pub interval: Interval,
}

impl Clone for Entry {
    fn clone(&self) -> (r: Self)
        ensures
            r == *self,
    {
        Entry { desc: self.desc.clone(), interval: self.interval }
    }
}

/// The error that pairing `a` with `b` runs into, if any: the first must be a
/// START and the second an END, of the same task, and the end must not come
/// before the start.
pub open spec fn pair_error(a: EntryLine, b: EntryLine) -> Option<ParseError> {
    model_pair_error(line_view(a), line_view(b))
}

/// `pair_error` on the kind, description and time of two lines.
pub open spec fn model_pair_error(
    a: (EntryKind, Seq<char>, i128),
    b: (EntryKind, Seq<char>, i128),
) -> Option<ParseError> {
    if a.0 != EntryKind::Start || b.0 != EntryKind::End {
        Some(ParseError::StartNoEnd)
    } else if a.1 != b.1 {
        Some(ParseError::DescMismatch)
    } else if b.2 < a.2 {
        Some(ParseError::EndBeforeStart)
    } else {
        None
    }
}

/// The session that a valid START/END pair describes.
pub open spec fn paired_entry(a: EntryLine, b: EntryLine) -> Entry {
    Entry { desc: a.desc, interval: Interval { start: a.dt, end: Some(b.dt) } }
}

impl Entry {
    /// The session opened by `a` and closed by `b`.
    pub fn new(a: &EntryLine, b: &EntryLine) -> (r: Result<Entry, ParseError>)
        ensures
            match r {
                Ok(e) => pair_error(*a, *b) is None && e == paired_entry(*a, *b),
                Err(e) => pair_error(*a, *b) == Some(e),
            },
    {
        if a.kind != EntryKind::Start || b.kind != EntryKind::End {
            return Err(ParseError::StartNoEnd);
        }
        if a.desc != b.desc {
            return Err(ParseError::DescMismatch);
        }
        if b.dt < a.dt {
            return Err(ParseError::EndBeforeStart);
        }
        Ok(Entry { desc: a.desc.clone(), interval: Interval { start: a.dt, end: Some(b.dt) } })
    }
}


/// Index of the first line that does not parse, if any.
pub open spec fn first_bad_line(texts: Seq<Seq<char>>) -> Option<int>
    decreases texts.len(),
{
    if texts.len() == 0 {
        None
    } else {
        match first_bad_line(texts.drop_last()) {
            Some(i) => Some(i),
            None => if line_model(texts.last()) is None {
                Some(texts.len() - 1)
            } else {
                None
            },
        }
    }
}

/// `lines` are what the texts read as, one for one.
pub open spec fn lines_read(texts: Seq<Seq<char>>, lines: Seq<EntryLine>) -> bool {
    &&& lines.len() == texts.len()
    &&& forall|i: int|
        0 <= i < texts.len() ==> line_model(#[trigger] texts[i]) == Some(line_view(lines[i]))
            && valid_time(lines[i].dt as int)
}

proof fn lemma_first_bad_line_none(texts: Seq<Seq<char>>)
    requires
        forall|i: int| 0 <= i < texts.len() ==> line_model(#[trigger] texts[i]) is Some,
    ensures
        first_bad_line(texts) is None,
    decreases texts.len(),
{
    if texts.len() > 0 {
        lemma_first_bad_line_none(texts.drop_last());
        assert(line_model(texts[texts.len() - 1]) is Some);
    }
}

proof fn lemma_first_bad_line_at(texts: Seq<Seq<char>>, k: int)
    requires
        0 <= k < texts.len(),
        forall|i: int| 0 <= i < k ==> line_model(#[trigger] texts[i]) is Some,
        line_model(texts[k]) is None,
    ensures
        first_bad_line(texts) == Some(k),
    decreases texts.len(),
{
    if k < texts.len() - 1 {
        lemma_first_bad_line_at(texts.drop_last(), k);
    } else {
        lemma_first_bad_line_none(texts.drop_last());
    }
}

/// Reads every text as a log line; fails with the error of the first line
/// that does not parse.
pub fn parse_entry_lines(texts: &Vec<String>) -> (r: Result<Vec<EntryLine>, ParseError>)
    ensures
        match r {
            Ok(lines) => first_bad_line(string_views(texts@)) is None && lines_read(
                string_views(texts@),
                lines@,
            ),
            Err(e) => first_bad_line(string_views(texts@)) matches Some(i) && 0 <= i
                < texts@.len() && line_error(texts@[i]@, e),
        },
{
    let ghost views = string_views(texts@);
    let mut out: Vec<EntryLine> = Vec::new();
    let mut i: usize = 0;
    while i < texts.len()
        invariant
            views == string_views(texts@),
            i <= texts@.len(),
            lines_read(views.take(i as int), out@),
            forall|j: int| 0 <= j < i ==> line_model(#[trigger] views[j]) is Some,
        decreases texts@.len() - i,
    {
        match EntryLine::parse(texts[i].as_str()) {
            Ok(line) => {
                out.push(line);
                assert(lines_read(views.take(i + 1), out@)) by {
                    assert forall|j: int| 0 <= j < i + 1 implies line_model(
                        #[trigger] views.take(i + 1)[j],
                    ) == Some(line_view(out@[j])) && valid_time(out@[j].dt as int) by {
                        if j < i {
                            assert(views.take(i + 1)[j] == views.take(i as int)[j]);
                        }
                    }
                }
            },
            Err(e) => {
                proof {
                    lemma_first_bad_line_at(views, i as int);
                }
                return Err(e);
            },
        }
        i = i + 1;
    }
    proof {
        lemma_first_bad_line_none(views);
        assert(views.take(i as int) =~= views);
    }
    Ok(out)
}

/// Index of the first pair `(2k, 2k + 1)` that is not a valid START/END
/// pair, with its error.
pub open spec fn first_bad_pair(lines: Seq<EntryLine>, n: int) -> Option<(int, ParseError)>
    decreases n,
{
    if n <= 0 {
        None
    } else {
        match first_bad_pair(lines, n - 1) {
            Some(x) => Some(x),
            None => match pair_error(lines[2 * (n - 1)], lines[2 * (n - 1) + 1]) {
                Some(e) => Some((n - 1, e)),
                None => None,
            },
        }
    }
}

proof fn lemma_first_bad_pair_none(lines: Seq<EntryLine>, n: int)
    requires
        forall|k: int| 0 <= k < n ==> #[trigger] pair_error(lines[2 * k], lines[2 * k + 1]) is None,
    ensures
        first_bad_pair(lines, n) is None,
    decreases n,
{
    if n > 0 {
        lemma_first_bad_pair_none(lines, n - 1);
        assert(pair_error(lines[2 * (n - 1)], lines[2 * (n - 1) + 1]) is None);
    }
}

proof fn lemma_first_bad_pair_at(lines: Seq<EntryLine>, n: int, k: int, e: ParseError)
    requires
        0 <= k < n,
        forall|j: int| 0 <= j < k ==> #[trigger] pair_error(lines[2 * j], lines[2 * j + 1]) is None,
        pair_error(lines[2 * k], lines[2 * k + 1]) == Some(e),
    ensures
        first_bad_pair(lines, n) == Some((k, e)),
    decreases n,
{
    if k < n - 1 {
        lemma_first_bad_pair_at(lines, n - 1, k, e);
    } else {
        lemma_first_bad_pair_none(lines, n - 1);
    }
}

/// `Itertools::tuples` of itertools over the lines, two at a time: the
/// consecutive pairs `(0, 1), (2, 3), ...`; a last line without a partner
/// is dropped.
#[verifier::external_body]
fn line_pairs(lines: &Vec<EntryLine>) -> (r: Vec<(&EntryLine, &EntryLine)>)
    ensures
        r@.len() == lines@.len() / 2,
        forall|k: int|
            0 <= k < r@.len() ==> *(#[trigger] r@[k]).0 == lines@[2 * k] && *r@[k].1 == lines@[2 * k
                + 1],
{
    lines.iter().tuples().collect()
}

/// The sessions of consecutive line pairs `(0, 1), (2, 3), ...`; a last
/// line without a partner is left out.
pub fn pair_up(lines: &Vec<EntryLine>) -> (r: Result<Vec<Entry>, ParseError>)
    ensures
        match r {
            Ok(entries) => first_bad_pair(lines@, (lines@.len() / 2) as int) is None && entries@.len()
                == lines@.len() / 2 && (forall|k: int|
                0 <= k < entries@.len() ==> #[trigger] entries@[k] == paired_entry(
                    lines@[2 * k],
                    lines@[2 * k + 1],
                )) && (forall|k: int|
                0 <= k < entries@.len() ==> #[trigger] pair_error(lines@[2 * k], lines@[2 * k + 1])
                    is None),
            Err(e) => first_bad_pair(lines@, (lines@.len() / 2) as int) matches Some((k, e2)) && e2 == e,
        },
{
    let pairs = line_pairs(lines);
    let n = pairs.len();
    let mut out: Vec<Entry> = Vec::new();
    let mut k: usize = 0;
    while k < n
        invariant
            n == pairs@.len(),
            n == lines@.len() / 2,
            forall|j: int|
                0 <= j < n ==> *(#[trigger] pairs@[j]).0 == lines@[2 * j] && *pairs@[j].1 == lines@[2
                    * j + 1],
            k <= n,
            out@.len() == k,
            forall|j: int| 0 <= j < k ==> #[trigger] out@[j] == paired_entry(lines@[2 * j], lines@[2 * j + 1]),
            forall|j: int| 0 <= j < k ==> #[trigger] pair_error(lines@[2 * j], lines@[2 * j + 1]) is None,
        decreases n - k,
    {
        let (a, b) = pairs[k];
        proof {
            assert(*pairs@[k as int].0 == lines@[2 * k]);
        }
        match Entry::new(a, b) {
            Ok(e) => {
                out.push(e);
            },
            Err(e) => {
                proof {
                    lemma_first_bad_pair_at(lines@, n as int, k as int, e);
                }
                return Err(e);
            },
        }
        k = k + 1;
    }
    proof {
        lemma_first_bad_pair_none(lines@, n as int);
    }
    Ok(out)
}

} // verus!
