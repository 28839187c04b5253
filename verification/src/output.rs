//! Presentation of totals and per-task breakdowns: pretty text, JSON, CSV
//! and TSV.  Durations are nanoseconds; the machine formats print whole minutes
//! (truncated toward zero), the pretty format prints `2h 30m`, `45m`, `2h`.
use crate::text::{chars_of, decimal, push_char, push_decimal, push_signed_decimal, push_str, signed_decimal};
use crate::time::{minutes_of, num_minutes, valid_delta};
use vstd::prelude::*;

verus! {

/// Supported presentation formats for report output.
#[derive(Debug, Clone, Copy, PartialEq, Eq, Structural)]
pub enum OutputFormat {
    /// Human-readable text (default)
    Pretty,
    /// Newline-delimited JSON
    Json,
    /// Comma-separated values
    Csv,
    /// Tab-separated values
    Tsv,
}

impl Default for OutputFormat {
    fn default() -> (r: Self)
        ensures
            r == OutputFormat::Pretty,
    {
        OutputFormat::Pretty
    }
}

/// `s` with `f` applied to each character and the results joined.
pub open spec fn escaped(s: Seq<char>, f: spec_fn(char) -> Seq<char>) -> Seq<char>
    decreases s.len(),
{
    if s.len() == 0 {
        Seq::empty()
    } else {
        escaped(s.drop_last(), f) + f(s.last())
    }
}

/// A duration of `nanos` nanoseconds as `2h 30m`, `2h` or `45m` (whole
/// minutes, truncated toward zero), with a leading `-` when it is at least
/// one whole second below zero.
pub open spec fn duration_text(nanos: int) -> Seq<char> {
    let total = if minutes_of(nanos) < 0 {
        -minutes_of(nanos)
    } else {
        minutes_of(nanos)
    };
    let h = (total / 60) as nat;
    let m = (total % 60) as nat;
    let sign = if nanos <= -1000000000 {
        "-"@
    } else {
        ""@
    };
    if h == 0 {
        sign + decimal(m) + "m"@
    } else if m == 0 {
        sign + decimal(h) + "h"@
    } else {
        sign + decimal(h) + "h "@ + decimal(m) + "m"@
    }
}

/// Formats a duration compactly, e.g. `2h 30m` or `45m`.
pub fn format_duration(nanos: i128) -> (r: String)
    requires
        valid_delta(nanos as int),
    ensures
        r@ == duration_text(nanos as int),
{
    let minutes = num_minutes(nanos);
    let total: u64 = if minutes < 0 {
        ((-(minutes + 1)) as u64) + 1
    } else {
        minutes as u64
    };
    let h = total / 60;
    let m = total % 60;
    let mut out = String::new();
    if nanos <= -1000000000 {
        push_str(&mut out, "-");
    } else {
        push_str(&mut out, "");
    }
    if h == 0 {
        push_decimal(&mut out, m);
        push_str(&mut out, "m");
    } else if m == 0 {
        push_decimal(&mut out, h);
        push_str(&mut out, "h");
    } else {
        push_decimal(&mut out, h);
        push_str(&mut out, "h ");
        push_decimal(&mut out, m);
        push_str(&mut out, "m");
    }
    assert(out@ =~= duration_text(nanos as int));
    out
}

/// A CSV field character with `"` doubled.
pub open spec fn csv_char(c: char) -> Seq<char> {
    if c == '"' {
        seq!['"', '"']
    } else {
        seq![c]
    }
}

/// A CSV field: quoted, with inner quotes doubled, when it holds a comma or
/// a double quote; as it is otherwise.
pub open spec fn csv_field_text(s: Seq<char>) -> Seq<char> {
    if s.contains(',') || s.contains('"') {
        seq!['"'] + escaped(s, |c: char| csv_char(c)) + seq!['"']
    } else {
        s
    }
}

/// Wraps a CSV field in quotes if it contains a comma or double quote,
/// doubling inner quotes.
pub fn csv_field(s: &str) -> (r: String)
    ensures
        r@ == csv_field_text(s@),
{
    let chars = chars_of(s);
    let mut special = false;
    let mut i: usize = 0;
    while i < chars.len()
        invariant
            chars@ == s@,
            i <= chars@.len(),
            special == exists|j: int| 0 <= j < i && (chars@[j] == ',' || chars@[j] == '"'),
        decreases chars@.len() - i,
    {
        if chars[i] == ',' || chars[i] == '"' {
            special = true;
        }
        i = i + 1;
    }
    assert(special == (s@.contains(',') || s@.contains('"'))) by {
        if s@.contains(',') {
            let j = choose|j: int| 0 <= j < s@.len() && s@[j] == ',';
        }
        if s@.contains('"') {
            let j = choose|j: int| 0 <= j < s@.len() && s@[j] == '"';
        }
    }
    if !special {
        let mut out = String::new();
        push_str(&mut out, s);
        assert(out@ =~= s@);
        return out;
    }
    let mut out = String::new();
    push_char(&mut out, '"');
    let mut k: usize = 0;
    while k < chars.len()
        invariant
            chars@ == s@,
            k <= chars@.len(),
            out@ == seq!['"'] + escaped(chars@.take(k as int), |c: char| csv_char(c)),
        decreases chars@.len() - k,
    {
        let c = chars[k];
        if c == '"' {
            push_char(&mut out, '"');
            push_char(&mut out, '"');
        } else {
            push_char(&mut out, c);
        }
        assert(chars@.take(k + 1).drop_last() =~= chars@.take(k as int));
        assert(out@ =~= seq!['"'] + escaped(chars@.take(k + 1), |c: char| csv_char(c)));
        k = k + 1;
    }
    push_char(&mut out, '"');
    assert(chars@.take(chars@.len() as int) =~= chars@);
    assert(out@ =~= csv_field_text(s@));
    out
}

/// Lowercase hexadecimal digit of `d < 16`.
pub open spec fn hex_digit(d: int) -> char {
    if d < 10 {
        digit_char_of(d)
    } else if d == 10 {
        'a'
    } else if d == 11 {
        'b'
    } else if d == 12 {
        'c'
    } else if d == 13 {
        'd'
    } else if d == 14 {
        'e'
    } else {
        'f'
    }
}

/// Decimal digit of `d < 10`.
pub open spec fn digit_char_of(d: int) -> char {
    crate::text::digit(d as nat)
}

/// JSON escape of one character.
pub open spec fn json_char(c: char) -> Seq<char> {
    if c == '"' {
        seq!['\\', '"']
    } else if c == '\\' {
        seq!['\\', '\\']
    } else if c == '\n' {
        seq!['\\', 'n']
    } else if c == '\r' {
        seq!['\\', 'r']
    } else if c == '\t' {
        seq!['\\', 't']
    } else if (c as u32) < 0x20 {
        seq!['\\', 'u', '0', '0', hex_digit(((c as u32) / 16) as int), hex_digit(((c as u32) % 16) as int)]
    } else {
        seq![c]
    }
}

/// A JSON string literal holding `s`.
pub open spec fn json_string(s: Seq<char>) -> Seq<char> {
    seq!['"'] + escaped(s, |c: char| json_char(c)) + seq!['"']
}

fn hex_char(d: u32) -> (c: char)
    requires
        d < 16,
    ensures
        c == hex_digit(d as int),
{
    if d == 0 {
        '0'
    } else if d == 1 {
        '1'
    } else if d == 2 {
        '2'
    } else if d == 3 {
        '3'
    } else if d == 4 {
        '4'
    } else if d == 5 {
        '5'
    } else if d == 6 {
        '6'
    } else if d == 7 {
        '7'
    } else if d == 8 {
        '8'
    } else if d == 9 {
        '9'
    } else if d == 10 {
        'a'
    } else if d == 11 {
        'b'
    } else if d == 12 {
        'c'
    } else if d == 13 {
        'd'
    } else if d == 14 {
        'e'
    } else {
        'f'
    }
}

/// Produces a JSON string literal with proper escaping.
pub fn serde_json_escape(s: &str) -> (r: String)
    ensures
        r@ == json_string(s@),
{
    let chars = chars_of(s);
    let mut out = String::new();
    push_char(&mut out, '"');
    let mut k: usize = 0;
    while k < chars.len()
        invariant
            chars@ == s@,
            k <= chars@.len(),
            out@ == seq!['"'] + escaped(chars@.take(k as int), |c: char| json_char(c)),
        decreases chars@.len() - k,
    {
        let c = chars[k];
        let code = c as u32;
        if c == '"' {
            push_char(&mut out, '\\');
            push_char(&mut out, '"');
        } else if c == '\\' {
            push_char(&mut out, '\\');
            push_char(&mut out, '\\');
        } else if c == '\n' {
            push_char(&mut out, '\\');
            push_char(&mut out, 'n');
        } else if c == '\r' {
            push_char(&mut out, '\\');
            push_char(&mut out, 'r');
        } else if c == '\t' {
            push_char(&mut out, '\\');
            push_char(&mut out, 't');
        } else if code < 0x20 {
            push_char(&mut out, '\\');
            push_char(&mut out, 'u');
            push_char(&mut out, '0');
            push_char(&mut out, '0');
            push_char(&mut out, hex_char(code / 16));
            push_char(&mut out, hex_char(code % 16));
        } else {
            push_char(&mut out, c);
        }
        assert(chars@.take(k + 1).drop_last() =~= chars@.take(k as int));
        assert(out@ =~= seq!['"'] + escaped(chars@.take(k + 1), |c: char| json_char(c)));
        k = k + 1;
    }
    push_char(&mut out, '"');
    assert(chars@.take(chars@.len() as int) =~= chars@);
    assert(out@ =~= json_string(s@));
    out
}

/// The total alone, as `write_total` prints it.
pub open spec fn total_text(format: OutputFormat, total: int) -> Seq<char> {
    match format {
        OutputFormat::Pretty => duration_text(total) + "\n"@,
        OutputFormat::Json => "{\"total_minutes\":"@ + signed_decimal(minutes_of(total)) + "}\n"@,
        OutputFormat::Csv => "total_minutes\n"@ + signed_decimal(minutes_of(total)) + "\n"@,
        OutputFormat::Tsv => "total_minutes\n"@ + signed_decimal(minutes_of(total)) + "\n"@,
    }
}

/// One row per summary item, each produced by `row`, joined.
pub open spec fn rows_text(
    summary: Seq<(String, i128)>,
    row: spec_fn((String, i128)) -> Seq<char>,
) -> Seq<char>
    decreases summary.len(),
{
    if summary.len() == 0 {
        Seq::empty()
    } else {
        rows_text(summary.drop_last(), row) + row(summary.last())
    }
}

/// A pretty breakdown row: `task: 2h 30m`.
pub open spec fn pretty_row(item: (String, i128)) -> Seq<char> {
    item.0@ + ": "@ + duration_text(item.1 as int) + "\n"@
}

/// A CSV breakdown row: `task,minutes`.
pub open spec fn csv_row(item: (String, i128)) -> Seq<char> {
    csv_field_text(item.0@) + ","@ + signed_decimal(minutes_of(item.1 as int)) + "\n"@
}

/// A TSV breakdown row: `task<TAB>minutes`.
pub open spec fn tsv_row(item: (String, i128)) -> Seq<char> {
    item.0@ + "\t"@ + signed_decimal(minutes_of(item.1 as int)) + "\n"@
}

/// A JSON breakdown item: `{"task":...,"minutes":...}`.
pub open spec fn json_item(item: (String, i128)) -> Seq<char> {
    "{\"task\":"@ + json_string(item.0@) + ",\"minutes\":"@ + signed_decimal(
        minutes_of(item.1 as int),
    ) + "}"@
}

/// JSON items separated by commas.
pub open spec fn json_items(summary: Seq<(String, i128)>) -> Seq<char>
    decreases summary.len(),
{
    if summary.len() == 0 {
        Seq::empty()
    } else if summary.len() == 1 {
        json_item(summary[0])
    } else {
        json_items(summary.drop_last()) + ","@ + json_item(summary.last())
    }
}

/// The per-task breakdown followed by the total, as `write_breakdown` prints it.
pub open spec fn breakdown_text(
    format: OutputFormat,
    summary: Seq<(String, i128)>,
    total: int,
) -> Seq<char> {
    match format {
        OutputFormat::Pretty => rows_text(summary, |i: (String, i128)| pretty_row(i)) + duration_text(
            total,
        ) + "\n"@,
        OutputFormat::Json => "{\"entries\":["@ + json_items(summary) + "],\"total_minutes\":"@
            + signed_decimal(minutes_of(total)) + "}\n"@,
        OutputFormat::Csv => "task,minutes\n"@ + rows_text(summary, |i: (String, i128)| csv_row(i))
            + "TOTAL,"@ + signed_decimal(minutes_of(total)) + "\n"@,
        OutputFormat::Tsv => "task\tminutes\n"@ + rows_text(summary, |i: (String, i128)| tsv_row(i))
            + "TOTAL\t"@ + signed_decimal(minutes_of(total)) + "\n"@,
    }
}

impl OutputFormat {
    /// The total duration only (the default command's output).
    pub fn render_total(&self, total: i128) -> (r: String)
        requires
            valid_delta(total as int),
        ensures
            r@ == total_text(*self, total as int),
    {
        let mut out = String::new();
        match self {
            OutputFormat::Pretty => {
                let d = format_duration(total);
                push_str(&mut out, d.as_str());
                push_str(&mut out, "\n");
            },
            OutputFormat::Json => {
                push_str(&mut out, "{\"total_minutes\":");
                push_signed_decimal(&mut out, num_minutes(total));
                push_str(&mut out, "}\n");
            },
            OutputFormat::Csv => {
                push_str(&mut out, "total_minutes\n");
                push_signed_decimal(&mut out, num_minutes(total));
                push_str(&mut out, "\n");
            },
            OutputFormat::Tsv => {
                push_str(&mut out, "total_minutes\n");
                push_signed_decimal(&mut out, num_minutes(total));
                push_str(&mut out, "\n");
            },
        }
        assert(out@ =~= total_text(*self, total as int));
        out
    }

    /// A per-task breakdown followed by the total.
    pub fn render_breakdown(&self, summary: &[(String, i128)], total: i128) -> (r: String)
        requires
            valid_delta(total as int),
            forall|j: int| 0 <= j < summary@.len() ==> valid_delta(#[trigger] summary@[j].1 as int),
        ensures
            r@ == breakdown_text(*self, summary@, total as int),
    {
        let mut out = String::new();
        let n = summary.len();
        match self {
            OutputFormat::Pretty => {
                let mut i: usize = 0;
                while i < n
                    invariant
                        n == summary@.len(),
                        i <= n,
                        forall|j: int| 0 <= j < summary@.len() ==> valid_delta(#[trigger] summary@[j].1 as int),
                        out@ == rows_text(summary@.take(i as int), |i: (String, i128)| pretty_row(i)),
                    decreases n - i,
                {
                    push_str(&mut out, summary[i].0.as_str());
                    push_str(&mut out, ": ");
                    let d = format_duration(summary[i].1);
                    push_str(&mut out, d.as_str());
                    push_str(&mut out, "\n");
                    assert(summary@.take(i + 1).drop_last() =~= summary@.take(i as int));
                    assert(out@ =~= rows_text(summary@.take(i + 1), |i: (String, i128)| pretty_row(i)));
                    i = i + 1;
                }
                let d = format_duration(total);
                push_str(&mut out, d.as_str());
                push_str(&mut out, "\n");
            },
            OutputFormat::Json => {
                push_str(&mut out, "{\"entries\":[");
                let mut i: usize = 0;
                while i < n
                    invariant
                        n == summary@.len(),
                        i <= n,
                        forall|j: int| 0 <= j < summary@.len() ==> valid_delta(#[trigger] summary@[j].1 as int),
                        out@ == "{\"entries\":["@ + json_items(summary@.take(i as int)),
                    decreases n - i,
                {
                    if i > 0 {
                        push_str(&mut out, ",");
                    }
                    push_str(&mut out, "{\"task\":");
                    let esc = serde_json_escape(summary[i].0.as_str());
                    push_str(&mut out, esc.as_str());
                    push_str(&mut out, ",\"minutes\":");
                    push_signed_decimal(&mut out, num_minutes(summary[i].1));
                    push_str(&mut out, "}");
                    assert(summary@.take(i + 1).drop_last() =~= summary@.take(i as int));
                    if i == 0 {
                        assert(summary@.take(1)[0] == summary@[0]);
                    }
                    assert(out@ =~= "{\"entries\":["@ + json_items(summary@.take(i + 1)));
                    i = i + 1;
                }
                push_str(&mut out, "],\"total_minutes\":");
                push_signed_decimal(&mut out, num_minutes(total));
                push_str(&mut out, "}\n");
            },
            OutputFormat::Csv => {
                push_str(&mut out, "task,minutes\n");
                let mut i: usize = 0;
                while i < n
                    invariant
                        n == summary@.len(),
                        i <= n,
                        forall|j: int| 0 <= j < summary@.len() ==> valid_delta(#[trigger] summary@[j].1 as int),
                        out@ == "task,minutes\n"@ + rows_text(
                            summary@.take(i as int),
                            |i: (String, i128)| csv_row(i),
                        ),
                    decreases n - i,
                {
                    let f = csv_field(summary[i].0.as_str());
                    push_str(&mut out, f.as_str());
                    push_str(&mut out, ",");
                    push_signed_decimal(&mut out, num_minutes(summary[i].1));
                    push_str(&mut out, "\n");
                    assert(summary@.take(i + 1).drop_last() =~= summary@.take(i as int));
                    assert(out@ =~= "task,minutes\n"@ + rows_text(
                        summary@.take(i + 1),
                        |i: (String, i128)| csv_row(i),
                    ));
                    i = i + 1;
                }
                push_str(&mut out, "TOTAL,");
                push_signed_decimal(&mut out, num_minutes(total));
                push_str(&mut out, "\n");
            },
            OutputFormat::Tsv => {
                push_str(&mut out, "task\tminutes\n");
                let mut i: usize = 0;
                while i < n
                    invariant
                        n == summary@.len(),
                        i <= n,
                        forall|j: int| 0 <= j < summary@.len() ==> valid_delta(#[trigger] summary@[j].1 as int),
                        out@ == "task\tminutes\n"@ + rows_text(
                            summary@.take(i as int),
                            |i: (String, i128)| tsv_row(i),
                        ),
                    decreases n - i,
                {
                    push_str(&mut out, summary[i].0.as_str());
                    push_str(&mut out, "\t");
                    push_signed_decimal(&mut out, num_minutes(summary[i].1));
                    push_str(&mut out, "\n");
                    assert(summary@.take(i + 1).drop_last() =~= summary@.take(i as int));
                    assert(out@ =~= "task\tminutes\n"@ + rows_text(
                        summary@.take(i + 1),
                        |i: (String, i128)| tsv_row(i),
                    ));
                    i = i + 1;
                }
                push_str(&mut out, "TOTAL\t");
                push_signed_decimal(&mut out, num_minutes(total));
                push_str(&mut out, "\n");
            },
        }
        assert(summary@.take(n as int) =~= summary@);
        assert(out@ =~= breakdown_text(*self, summary@, total as int));
        out
    }
}

/// `q` is the number of whole minutes in `d` nanoseconds, counted toward
/// zero: `q` full minutes fit within `d` and one more would not.
pub open spec fn whole_minutes(q: int, d: int) -> bool {
    if d >= 0 {
        0 <= q && q * 60000000000 <= d < (q + 1) * 60000000000
    } else {
        q <= 0 && (q - 1) * 60000000000 < d <= q * 60000000000
    }
}

/// Whole minutes are unique, and `minutes_of` gives them.
proof fn lemma_whole_minutes(q: int, d: int)
    requires
        whole_minutes(q, d),
    ensures
        q == minutes_of(d),
{
    if d >= 0 {
        assert(q == d / 60000000000) by (nonlinear_arith)
            requires
                0 <= q,
                q * 60000000000 <= d,
                d < (q + 1) * 60000000000,
        ;
    } else {
        let e = -d;
        let r = -q;
        assert(r == e / 60000000000) by (nonlinear_arith)
            requires
                0 <= r,
                r * 60000000000 <= e,
                e < (r + 1) * 60000000000,
        ;
    }
}

/// Law: the pretty text of a duration reads back to its whole minutes:
/// the hours and minutes it shows make up, as `hours * 60 + minutes`, the
/// magnitude of the duration's whole minutes, and it carries a `-` exactly
/// when the duration is at least one whole second below zero.
pub proof fn lemma_duration_text_reads_back(d: int, q: int, h: nat, m: nat)
    requires
        whole_minutes(q, d),
        m < 60,
        h * 60 + m == (if q < 0 {
            -q
        } else {
            q
        }),
    ensures
        duration_text(d) == (if d <= -1000000000 {
            "-"@
        } else {
            ""@
        }) + (if h == 0 {
            decimal(m) + "m"@
        } else if m == 0 {
            decimal(h) + "h"@
        } else {
            decimal(h) + "h "@ + decimal(m) + "m"@
        }),
{
    lemma_whole_minutes(q, d);
    let total = if q < 0 {
        -q
    } else {
        q
    };
    assert(h == total / 60 && m == total % 60) by (nonlinear_arith)
        requires
            m < 60,
            h * 60 + m == total,
            0 <= m,
            0 <= h,
    ;
}

/// Law: every format ends a breakdown with its total: the pretty text of
/// the total in the pretty format, and in the JSON, CSV and TSV formats the
/// decimal whole minutes of the total, as each row gives its minutes.
pub proof fn lemma_breakdown_total(format: OutputFormat, summary: Seq<(String, i128)>, total: int, q: int)
    requires
        whole_minutes(q, total),
    ensures
        ({
            let text = breakdown_text(format, summary, total);
            let tail = match format {
                OutputFormat::Pretty => duration_text(total) + "\n"@,
                OutputFormat::Json => "],\"total_minutes\":"@ + signed_decimal(q) + "}\n"@,
                OutputFormat::Csv => "TOTAL,"@ + signed_decimal(q) + "\n"@,
                OutputFormat::Tsv => "TOTAL\t"@ + signed_decimal(q) + "\n"@,
            };
            tail.len() <= text.len() && text.subrange(text.len() - tail.len(), text.len() as int)
                == tail
        }),
{
    lemma_whole_minutes(q, total);
    let text = breakdown_text(format, summary, total);
    let sd = signed_decimal(q);
    match format {
        OutputFormat::Pretty => {
            let head = rows_text(summary, |i: (String, i128)| pretty_row(i));
            let tail = duration_text(total) + "\n"@;
            assert(text =~= head + tail);
            assert((head + tail).subrange(head.len() as int, (head + tail).len() as int) =~= tail);
        },
        OutputFormat::Json => {
            let head = "{\"entries\":["@ + json_items(summary);
            let tail = "],\"total_minutes\":"@ + sd + "}\n"@;
            assert(text =~= head + tail);
            assert((head + tail).subrange(head.len() as int, (head + tail).len() as int) =~= tail);
        },
        OutputFormat::Csv => {
            let head = "task,minutes\n"@ + rows_text(summary, |i: (String, i128)| csv_row(i));
            let tail = "TOTAL,"@ + sd + "\n"@;
            assert(text =~= head + tail);
            assert((head + tail).subrange(head.len() as int, (head + tail).len() as int) =~= tail);
        },
        OutputFormat::Tsv => {
            let head = "task\tminutes\n"@ + rows_text(summary, |i: (String, i128)| tsv_row(i));
            let tail = "TOTAL\t"@ + sd + "\n"@;
            assert(text =~= head + tail);
            assert((head + tail).subrange(head.len() as int, (head + tail).len() as int) =~= tail);
        },
    }
}

/// Law: in the JSON, CSV and TSV formats a row gives its task and the
/// decimal whole minutes of its duration.
pub proof fn lemma_machine_rows(item: (String, i128), q: int)
    requires
        whole_minutes(q, item.1 as int),
    ensures
        csv_row(item) == csv_field_text(item.0@) + ","@ + signed_decimal(q) + "\n"@,
        tsv_row(item) == item.0@ + "\t"@ + signed_decimal(q) + "\n"@,
        json_item(item) == "{\"task\":"@ + json_string(item.0@) + ",\"minutes\":"@ + signed_decimal(q)
            + "}"@,
{
    lemma_whole_minutes(q, item.1 as int);
}

/// Law: the total alone is the pretty text of the duration in the pretty
/// format, and the decimal whole minutes of the duration in the JSON, CSV
/// and TSV formats.
pub proof fn lemma_total_text(format: OutputFormat, total: int, q: int)
    requires
        whole_minutes(q, total),
    ensures
        total_text(format, total) == match format {
            OutputFormat::Pretty => duration_text(total) + "\n"@,
            OutputFormat::Json => "{\"total_minutes\":"@ + signed_decimal(q) + "}\n"@,
            OutputFormat::Csv => "total_minutes\n"@ + signed_decimal(q) + "\n"@,
            OutputFormat::Tsv => "total_minutes\n"@ + signed_decimal(q) + "\n"@,
        },
{
    lemma_whole_minutes(q, total);
}

} // verus!
