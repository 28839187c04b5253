//! The rules of the command line: which store a run uses, what the date
//! options mean, and how `start` is asked for.
use crate::entry::{valid_interval, Entry};
use crate::service::{as_rows, closed_total, lemma_breakdown_adds_up, task_rows, task_totals, totals_fit};
use crate::summary::{
    lemma_sorted_keeps_sum, lemma_sorted_running_sums, rows_pos_sum, rows_sum, sort_by_duration,
    sorted_permutation_of, sums_fit, total_of,
};
use crate::time::{valid_delta, valid_time, MAX_DELTA};
use vstd::prelude::*;

verus! {

/// The environment variable naming the default log file.
pub const ENV_KEY: &'static str = "HOURUS_DEFAULT_FILE";

/// The log a run reads: an explicit `--path` first; then the environment's
/// default file, unless `--no-env` is given; otherwise the standard
/// streams (`None`).
pub fn resolve_path(path: Option<String>, no_env: bool, env_value: Option<String>) -> (r: Option<String>)
    ensures
        r == (match path {
            Some(p) => Some(p),
            None => if no_env {
                None
            } else {
                env_value
            },
        }),
{
    match path {
        Some(p) => Some(p),
        None => if no_env {
            None
        } else {
            env_value
        },
    }
}

/// A file is an SQLite database when its extension is `db` or `sqlite`.
pub open spec fn database_extension(ext: Option<Seq<char>>) -> bool {
    ext == Some("db"@) || ext == Some("sqlite"@)
}

/// Whether a file with extension `ext` is kept in SQLite.
pub fn is_database_extension(ext: Option<&str>) -> (r: bool)
    ensures
        r == database_extension(
            match ext {
                Some(e) => Some(e@),
                None => None,
            },
        ),
{
    match ext {
        Some(e) => {
            let db = "db";
            let sqlite = "sqlite";
            proof {
                reveal_strlit("db");
                reveal_strlit("sqlite");
            }
            crate::entry::str_eq(e, db) || crate::entry::str_eq(e, sqlite)
        },
        None => false,
    }
}

/// How `start` proceeds.
#[derive(Debug)]
pub enum StartMode {
    /// Open the interactive screen, starting `desc` first when given.
    Interactive(Option<String>),
    /// Start `desc` right away.
    Direct(String),
}

/// Errors of the command line's rules.
#[derive(Debug, Clone, Copy, PartialEq, Eq, Structural)]
pub enum CliError {
    /// `start` without a description and without `--interactive`.
    MissingDescription,
}

impl CliError {
    /// The human-readable message of the error.
    pub fn message(&self) -> (r: &'static str)
        ensures
            r@ == "a description is required when not using --interactive"@,
    {
        match self {
            CliError::MissingDescription => "a description is required when not using --interactive",
        }
    }
}

/// What `start` with `desc` and `--interactive` set or not does: the
/// interactive screen takes an optional description; otherwise one is
/// required.
pub fn start_mode(desc: Option<String>, interactive: bool) -> (r: Result<StartMode, CliError>)
    ensures
        interactive ==> (r matches Ok(StartMode::Interactive(d)) && d == desc),
        !interactive && desc is Some ==> (r matches Ok(StartMode::Direct(d)) && Some(d) == desc),
        !interactive && desc is None ==> r == Err::<StartMode, CliError>(CliError::MissingDescription),
{
    if interactive {
        Ok(StartMode::Interactive(desc))
    } else {
        match desc {
            Some(d) => Ok(StartMode::Direct(d)),
            None => Err(CliError::MissingDescription),
        }
    }
}

/// The last second of the day that begins at `day_start` (the `--to`
/// bound of a date).
pub fn end_of_day(day_start: i128) -> (r: i128)
    requires
        valid_time(day_start as int),
        valid_time(day_start + 86399000000000),
    ensures
        r == day_start + 86399000000000,
{
    day_start + 86399000000000
}

/// The breakdown fits in durations: every running per-task total does,
/// and so does every running sum of the per-task totals once they are
/// ordered longest first.
pub open spec fn breakdown_fits(es: Seq<Entry>) -> bool {
    &&& totals_fit(es)
    &&& rows_pos_sum(as_rows(task_totals(es))) <= MAX_DELTA
    &&& rows_sum(as_rows(task_totals(es))) >= -MAX_DELTA
}

/// The breakdown of sessions: per-task totals of the closed sessions,
/// longest first, and their sum; `None` when a running sum leaves the range
/// of a duration (where adding up durations fails).
pub fn breakdown(entries: &[Entry]) -> (r: Option<(Vec<(String, i128)>, i128)>)
    requires
        forall|i: int| 0 <= i < entries@.len() ==> valid_interval(#[trigger] entries@[i].interval),
    ensures
        match r {
            Some((rows, total)) => {
                &&& breakdown_fits(entries@)
                &&& sorted_permutation_of(rows@, as_rows(task_totals(entries@)))
                &&& total == rows_sum(rows@)
                &&& total == closed_total(entries@)
            },
            None => !breakdown_fits(entries@),
        },
{
    let rows = match task_rows(entries) {
        Some(rows) => rows,
        None => return None,
    };
    proof {
        assert forall|i: int| 0 <= i < rows@.len() implies valid_delta(#[trigger] rows@[i].1 as int) by {
            assert(rows@[i] == as_rows(task_totals(entries@))[i]);
            assert(entries@.take(entries@.len() as int) =~= entries@);
            assert(valid_delta(task_totals(entries@.take(entries@.len() as int))[i].1));
        }
    }
    if !sums_fit(rows.as_slice()) {
        return None;
    }
    let ghost unsorted = rows@;
    let mut rows = rows;
    sort_by_duration(&mut rows);
    proof {
        lemma_sorted_keeps_sum(rows@, unsorted);
        lemma_sorted_running_sums(rows@);
        lemma_breakdown_adds_up(entries@, rows@);
    }
    match total_of(rows.as_slice()) {
        Some(total) => Some((rows, total)),
        None => None,
    }
}

} // verus!
