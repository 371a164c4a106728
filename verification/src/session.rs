//! `roundtable session`: the full daily creative chain.
//!
//! The chain is `the-lunch lunch`, then `vicious-circle record` for each
//! artifact not yet recorded for the date, then `conning-tower compose` and
//! `conning-tower syndicate`. The decisions live here as a state machine: the
//! caller performs each action it is handed (run a command, read a file) and
//! reports what came of it.

use vstd::prelude::*;
use crate::calendar::{
    fmt_ymd, is_calendar_date, is_leap_year, jdn_of, lemma_jdn_decode_encode, month_length,
    ymd_of_jdn, ymd_text,
};
use crate::paths::{join_path, path_join, path_key, same_path};
use crate::table::{present_paths, Table};
use crate::text::{
    chars_of, has_text, lemma_has_text_middle, opt_chars, opt_text, padded_int, push_padded, push_str,
    string_of, texts,
};

verus! {

/// Arguments for `roundtable session`.
#[derive(Debug)]
pub struct SessionArgs {
    /// Date to run the session for (YYYY-MM-DD). Defaults to today.
    pub date: Option<String>,
    /// Print the stage plan without executing mutating stages.
    pub dry_run: bool,
    /// Directory containing the required tool binaries.
    pub bin_dir: Option<String>,
    /// Path to the vicious-circle ledger JSONL.
    pub ledger: Option<String>,
    /// Directory for the canonical columns slot (passed to conning-tower syndicate).
    pub columns_dir: Option<String>,
}

/// The Julian Day Number of 1970-01-01.
pub open spec fn unix_epoch_jdn() -> int {
    2440588
}

/// The calendar date `secs` seconds after the Unix epoch.
pub open spec fn epoch_ymd(secs: nat) -> (int, int, int) {
    ymd_of_jdn(unix_epoch_jdn() + secs / 86400)
}

/// Whether `y` is a leap year.
pub fn is_leap(y: u64) -> (r: bool)
    ensures
        r == is_leap_year(y as int),
{
    (y % 4 == 0 && y % 100 != 0) || y % 400 == 0
}

/// Converts seconds since the Unix epoch to a "YYYY-MM-DD" string.
pub fn epoch_to_date(secs: u64) -> (r: String)
    ensures
        ({
            let (y, m, d) = epoch_ymd(secs as nat);
            r@ == ymd_text(y, m, d) && is_calendar_date(y, m, d) && y >= 1970
        }),
{
    let days = secs / 86400;
    let mut remaining = days;
    let mut year: u64 = 1970;
    proof {
        reveal(jdn_of);
        assert(crate::calendar::tdiv(13, 12) == 1);
        assert(crate::calendar::tdiv(1532, 5) == 306);
        assert(crate::calendar::tdiv(6769, 4) == 1692);
        assert(crate::calendar::tdiv(6769, 100) == 67);
        assert(crate::calendar::tdiv(6769, 400) == 16);
        assert(jdn_of(1970, 1, 1) == unix_epoch_jdn());
    }
    loop
        invariant
            1970 <= year <= 1970 + (days - remaining),
            remaining <= days,
            days == secs / 86400,
            jdn_of(year as int, 1, 1) + remaining == unix_epoch_jdn() + days,
        ensures
            1970 <= year <= 1970 + days,
            days == secs / 86400,
            jdn_of(year as int, 1, 1) + remaining == unix_epoch_jdn() + days,
            remaining < (if is_leap_year(year as int) { 366int } else { 365int }),
        decreases remaining,
    {
        let days_in_year: u64 = if is_leap(year) { 366 } else { 365 };
        if remaining < days_in_year {
            break;
        }
        proof { crate::calendar::lemma_jdn_steps(year as int, 1, 1); }
        remaining -= days_in_year;
        year += 1;
    }
    let mut month: u32 = 1;
    proof {
        assert(jdn_of(year as int, 1, 1) - jdn_of(year as int, 1, 1) == 0);
    }
    loop
        invariant
            1 <= month <= 12,
            year >= 1970,
            year <= 1970 + days,
            remaining < (if is_leap_year(year as int) { 366int } else { 365int }) - (jdn_of(year as int, month as int, 1) - jdn_of(year as int, 1, 1)),
            jdn_of(year as int, month as int, 1) + remaining == unix_epoch_jdn() + days,
            days == secs / 86400,
        ensures
            1 <= month <= 12,
            1970 <= year <= 1970 + days,
            jdn_of(year as int, month as int, 1) + remaining == unix_epoch_jdn() + days,
            days == secs / 86400,
            remaining < month_length(year as int, month as int),
        decreases 12 - month,
    {
        let md = crate::calendar::days_in_month(year as i64, month) as u64;
        if remaining < md {
            break;
        }
        proof {
            crate::calendar::lemma_jdn_steps(year as int, month as int, 1);
            crate::calendar::lemma_jdn_steps(year as int, 1, 1);
            if month == 12 {
                lemma_year_length(year as int);
            }
        }
        remaining -= md;
        month += 1;
    }
    let day = remaining + 1;
    proof {
        crate::calendar::lemma_jdn_steps(year as int, month as int, day as int);
        lemma_month_fits(year as int, month as int);
        assert(is_calendar_date(year as int, month as int, day as int));
        lemma_jdn_decode_encode(year as int, month as int, day as int);
    }
    fmt_ymd(year as i64, month, day as u32)
}

/// Every moment within 100000 days of the Unix epoch prints as a ten-character
/// "YYYY-MM-DD" with `-` at positions 4 and 7, a year from 1970, a month from
/// 1 to 12 and a day from 1 to 31.
pub proof fn lemma_epoch_date_shape(secs: nat)
    requires
        secs < 100_000 * 86400,
    ensures
        ({
            let (y, m, d) = epoch_ymd(secs);
            let t = ymd_text(y, m, d);
            &&& t.len() == 10
            &&& t[4] == '-'
            &&& t[7] == '-'
            &&& 1970 <= y <= 9999
            &&& 1 <= m <= 12
            &&& 1 <= d <= 31
        }),
{
    let k = secs / 86400;
    crate::calendar::lemma_epoch_year_range(k);
    crate::calendar::lemma_jdn_roundtrip(unix_epoch_jdn() + k);
    let (y, m, d) = epoch_ymd(secs);
    crate::calendar::lemma_ymd_text_shape(y, m, d);
}

/// A year's months add up to the year's length.
proof fn lemma_year_length(y: int)
    requires
        y >= 0,
    ensures
        jdn_of(y, 12, 1) - jdn_of(y, 1, 1) + 31 == (if is_leap_year(y) { 366int } else { 365int }),
{
    crate::calendar::lemma_jdn_steps(y, 1, 1);
    crate::calendar::lemma_jdn_steps(y, 2, 1);
    crate::calendar::lemma_jdn_steps(y, 3, 1);
    crate::calendar::lemma_jdn_steps(y, 4, 1);
    crate::calendar::lemma_jdn_steps(y, 5, 1);
    crate::calendar::lemma_jdn_steps(y, 6, 1);
    crate::calendar::lemma_jdn_steps(y, 7, 1);
    crate::calendar::lemma_jdn_steps(y, 8, 1);
    crate::calendar::lemma_jdn_steps(y, 9, 1);
    crate::calendar::lemma_jdn_steps(y, 10, 1);
    crate::calendar::lemma_jdn_steps(y, 11, 1);
    crate::calendar::lemma_jdn_steps(y, 12, 1);
}

/// The days left in the year from the first of month `m` bound the month's length
/// in December.
proof fn lemma_month_fits(y: int, m: int)
    requires
        y >= 0,
        1 <= m <= 12,
    ensures
        m == 12 ==> (if is_leap_year(y) { 366int } else { 365int }) - (jdn_of(y, m, 1) - jdn_of(y, 1, 1)) == 31,
{
    if m == 12 {
        lemma_year_length(y);
    }
}

/// An XDG base directory: the variable's value if set, else `.local/<sub>`
/// under `HOME` (or under `/tmp` without `HOME`).
pub open spec fn xdg_dir_of(xdg: Option<Seq<char>>, home: Option<Seq<char>>, sub: Seq<char>) -> Seq<char> {
    match xdg {
        Some(x) => x,
        None => {
            let h = match home {
                Some(h) => h,
                None => "/tmp"@,
            };
            path_join(path_join(h, ".local"@), sub)
        },
    }
}

/// An XDG base directory (`XDG_DATA_HOME` with `sub` "share", `XDG_STATE_HOME`
/// with `sub` "state").
pub fn xdg_dir(xdg: Option<&str>, home: Option<&str>, sub: &str) -> (r: String)
    ensures
        r@ == xdg_dir_of(opt_chars(xdg), opt_chars(home), sub@),
{
    match xdg {
        Some(x) => string_of(&chars_of(x)),
        None => {
            let h = match home {
                Some(h) => h,
                None => "/tmp",
            };
            let local = join_path(h, ".local");
            join_path(local.as_str(), sub)
        },
    }
}

/// The default ledger for `date`: `<data home>/roundtable/<date>/ledger.jsonl`.
pub fn default_ledger(data_home: &str, date: &str) -> (r: String)
    ensures
        r@ == path_join(path_join(path_join(data_home@, "roundtable"@), date@), "ledger.jsonl"@),
{
    let a = join_path(data_home, "roundtable");
    let b = join_path(a.as_str(), date);
    join_path(b.as_str(), "ledger.jsonl")
}

/// Where the-lunch leaves its state for `date`: `<state home>/the-lunch/<date>`.
pub fn lunch_state_dir(state_home: &str, date: &str) -> (r: String)
    ensures
        r@ == path_join(path_join(state_home@, "the-lunch"@), date@),
{
    let a = join_path(state_home, "the-lunch");
    join_path(a.as_str(), date)
}

/// The table the-lunch lays out for `date`.
pub fn table_path(state_home: &str, date: &str) -> (r: String)
    ensures
        r@ == path_join(path_join(path_join(state_home@, "the-lunch"@), date@), "table.json"@),
{
    let dir = lunch_state_dir(state_home, date);
    join_path(dir.as_str(), "table.json")
}

/// The date a session runs for: the one given, else the date of `now_secs`.
pub fn session_date(given: Option<String>, now_secs: u64) -> (r: String)
    ensures
        match given {
            Some(d) => r@ == d@,
            None => {
                let (y, m, d) = epoch_ymd(now_secs as nat);
                r@ == ymd_text(y, m, d)
            },
        },
{
    match given {
        Some(d) => d,
        None => epoch_to_date(now_secs),
    }
}

/// Everything a session needs once its tools are resolved.
#[derive(Debug)]
pub struct SessionConfig {
    pub date: String,
    pub dry_run: bool,
    pub lunch_bin: String,
    pub circle_bin: String,
    pub tower_bin: String,
    pub ledger: String,
    pub columns_dir: Option<String>,
    pub table_path: String,
}

/// Where a session stands.
#[derive(Debug, Clone, Copy, PartialEq, Eq, Structural)]
pub enum Phase {
    /// Nothing done yet.
    Start,
    /// Waiting for `the-lunch lunch`.
    Lunch,
    /// Waiting for the table to be read.
    Table,
    /// Waiting for the ledger's recorded artifacts.
    Ledger,
    /// Waiting for `vicious-circle record` of the current artifact.
    Critique,
    /// Waiting for `conning-tower compose`.
    Compose,
    /// Waiting for `conning-tower syndicate`.
    Syndicate,
    /// Waiting for the crowned bon mot.
    Crowned,
    /// Finished, well or not.
    Done,
}

/// How a stage command ended.
#[derive(Debug, Clone, Copy)]
pub struct ExitReport {
    /// The command could be started.
    pub started: bool,
    /// It exited successfully.
    pub success: bool,
    /// Its exit code, if it had one.
    pub code: Option<i32>,
}

/// What the caller reports back after performing an action.
#[derive(Debug)]
pub enum Event {
    /// Start the session.
    Begin,
    /// A `Run` action's command ended.
    Exited(ExitReport),
    /// The table was read (`Err` when it could not be read or parsed).
    TableLoaded(Result<Table, ()>),
    /// The artifacts already recorded for the date (`Err` when the ledger could not be read).
    RecordedLoaded(Result<Vec<String>, ()>),
    /// The last crowned bon mot for the date (`Err` when the ledger could not be read).
    CrownedLoaded(Result<Option<String>, ()>),
}

/// What the caller is to do next.
#[derive(Debug)]
pub enum Action {
    /// Run stage `stage`: the program `argv[0]` with arguments `argv[1..]`.
    Run { stage: String, argv: Vec<String> },
    /// Read and parse the table at `path`.
    LoadTable { path: String },
    /// Read the artifacts already recorded in the ledger for the date.
    LoadRecorded,
    /// Read the last crowned bon mot in the ledger for the date.
    LoadCrowned,
    /// The session succeeded.
    Finish,
    /// The session failed with `message`.
    Fail { message: String },
}

/// Lines to print, then an action to perform.
#[derive(Debug)]
pub struct Step {
    pub output: Vec<String>,
    pub action: Action,
}

/// An action seen through the characters of its strings.
pub enum ActionView {
    Run { stage: Seq<char>, argv: Seq<Seq<char>> },
    LoadTable { path: Seq<char> },
    LoadRecorded,
    LoadCrowned,
    Finish,
    Fail { message: Seq<char> },
}

impl View for Action {
    type V = ActionView;

    /// The action seen through the characters of its strings.
    open spec fn view(&self) -> ActionView {
        match self {
            Action::Run { stage, argv } => ActionView::Run { stage: stage@, argv: texts(argv@) },
            Action::LoadTable { path } => ActionView::LoadTable { path: path@ },
            Action::LoadRecorded => ActionView::LoadRecorded,
            Action::LoadCrowned => ActionView::LoadCrowned,
            Action::Finish => ActionView::Finish,
            Action::Fail { message } => ActionView::Fail { message: message@ },
        }
    }
}

/// The session's state, seen through the characters of its strings.
pub struct SessionView {
    pub phase: Phase,
    pub artifacts: Seq<Seq<char>>,
    pub recorded: Seq<Seq<char>>,
    pub current: int,
    pub critiqued: int,
}

/// An event, seen through what the session reads of it.
pub enum EventView {
    Begin,
    Exited { started: bool, success: bool, code: Option<i32> },
    TableLoaded(Option<Seq<Seq<char>>>),
    RecordedLoaded(Option<Seq<Seq<char>>>),
    CrownedLoaded(Option<Option<Seq<char>>>),
}

impl View for Event {
    type V = EventView;

    /// The event, with a table seen through its present artifacts.
    open spec fn view(&self) -> EventView {
        match self {
            Event::Begin => EventView::Begin,
            Event::Exited(x) => EventView::Exited { started: x.started, success: x.success, code: x.code },
            Event::TableLoaded(Ok(t)) => EventView::TableLoaded(Some(present_paths(t.dishes@))),
            Event::TableLoaded(Err(_)) => EventView::TableLoaded(None),
            Event::RecordedLoaded(Ok(v)) => EventView::RecordedLoaded(Some(texts(v@))),
            Event::RecordedLoaded(Err(_)) => EventView::RecordedLoaded(None),
            Event::CrownedLoaded(Ok(Some(c))) => EventView::CrownedLoaded(Some(Some(c@))),
            Event::CrownedLoaded(Ok(None)) => EventView::CrownedLoaded(Some(None)),
            Event::CrownedLoaded(Err(_)) => EventView::CrownedLoaded(None),
        }
    }
}

/// A session: the configuration and where the chain stands.
#[derive(Debug)]
pub struct Session {
    pub config: SessionConfig,
    pub phase: Phase,
    /// The present artifacts of the table, once read.
    pub artifacts: Vec<String>,
    /// The artifacts already recorded in the ledger for the date, once read.
    pub recorded: Vec<String>,
    /// The artifact being critiqued (in phase `Critique`).
    pub current: usize,
    /// How many artifacts are critiqued so far (recorded now or before).
    pub critiqued: usize,
}

/// How an optional exit code prints with `{:?}`.
pub open spec fn code_text(code: Option<i32>) -> Seq<char> {
    match code {
        Some(v) => "Some("@ + padded_int(v as int, 0) + ")"@,
        None => "None"@,
    }
}

/// The failure when a stage's command cannot be started.
pub open spec fn start_failure(stage: Seq<char>) -> Seq<char> {
    "failed to start stage `"@ + stage + "`"@
}

/// The failure when a stage's command exits unsuccessfully.
pub open spec fn exit_failure(stage: Seq<char>, code: Option<i32>) -> Seq<char> {
    "stage `"@ + stage + "` failed (exit "@ + code_text(code) + ")"@
}

/// The failure when `the-lunch lunch` exits unsuccessfully: it also shows the command.
pub open spec fn lunch_failure(c: SessionConfig, code: Option<i32>) -> Seq<char> {
    exit_failure("lunch"@, code) + ": "@ + c.lunch_bin@ + " lunch --date "@ + c.date@
}

/// The failure when the table cannot be read after the lunch.
pub open spec fn table_failure(c: SessionConfig) -> Seq<char> {
    "reading table.json after `the-lunch lunch --date "@ + c.date@ + "`"@
}

/// The stage name of critiquing artifact `a`.
pub open spec fn critique_stage(a: Seq<char>) -> Seq<char> {
    "critique:"@ + a
}

/// The plan a dry run prints instead of running anything.
pub open spec fn dry_run_plan(c: SessionConfig) -> Seq<Seq<char>> {
    let cd = match c.columns_dir {
        Some(d) => d@,
        None => "<--columns-dir required>"@,
    };
    seq![
        "[dry-run] stage: lunch"@,
        "  command: "@ + c.lunch_bin@ + " lunch --date "@ + c.date@,
        "[dry-run] stage: read table from "@ + c.table_path@,
        "[dry-run] stage: for each artifact: vicious-circle record <artifact> --ledger "@ + c.ledger@,
        "[dry-run] stage: conning-tower compose --ledger "@ + c.ledger@ + " --date "@ + c.date@,
        "[dry-run] stage: conning-tower syndicate --ledger "@ + c.ledger@ + " --date "@ + c.date@
            + " --to columns --columns-dir "@ + cd,
        "[dry-run] the-lunch lunch --date "@ + c.date@ + " plan printed; no files were written."@,
    ]
}

/// Running `the-lunch lunch` for the date.
pub open spec fn lunch_action(c: SessionConfig) -> ActionView {
    ActionView::Run { stage: "lunch"@, argv: seq![c.lunch_bin@, "lunch"@, "--date"@, c.date@] }
}

/// Recording a critique of artifact `a` in the ledger.
pub open spec fn critique_action(c: SessionConfig, a: Seq<char>) -> ActionView {
    ActionView::Run { stage: critique_stage(a), argv: seq![c.circle_bin@, "record"@, a, "--ledger"@, c.ledger@] }
}

/// Composing the column.
pub open spec fn compose_action(c: SessionConfig) -> ActionView {
    ActionView::Run {
        stage: "compose"@,
        argv: seq![c.tower_bin@, "compose"@, "--ledger"@, c.ledger@, "--date"@, c.date@],
    }
}

/// Syndicating the column to the columns slot.
pub open spec fn syndicate_action(c: SessionConfig) -> ActionView {
    let tail: Seq<Seq<char>> = match c.columns_dir {
        Some(d) => seq!["--columns-dir"@, d@],
        None => Seq::empty(),
    };
    ActionView::Run {
        stage: "syndicate"@,
        argv: seq![c.tower_bin@, "syndicate"@, "--ledger"@, c.ledger@, "--date"@, c.date@, "--to"@, "columns"@] + tail,
    }
}

/// The ledger already records artifact `a` (compared as paths).
pub open spec fn is_recorded(recorded: Seq<Seq<char>>, a: Seq<char>) -> bool {
    exists|k: int| 0 <= k < recorded.len() && path_key(#[trigger] recorded[k]) == path_key(a)
}

/// The first artifact at or after `i` that the ledger does not record yet
/// (`artifacts.len()` if none).
pub open spec fn next_unrecorded(artifacts: Seq<Seq<char>>, recorded: Seq<Seq<char>>, i: int) -> int
    decreases artifacts.len() - i,
{
    if i < 0 || i >= artifacts.len() {
        artifacts.len() as int
    } else if is_recorded(recorded, artifacts[i]) {
        next_unrecorded(artifacts, recorded, i + 1)
    } else {
        i
    }
}

/// The note for an artifact skipped because the ledger records it.
pub open spec fn skip_line(a: Seq<char>, date: Seq<char>) -> Seq<char> {
    "  (skipping "@ + a + ": already in ledger for "@ + date + ")"@
}

/// The notes for artifacts `i..j`, skipped.
pub open spec fn skip_lines(artifacts: Seq<Seq<char>>, i: int, j: int, date: Seq<char>) -> Seq<Seq<char>>
    decreases j - i,
{
    if i >= j {
        Seq::empty()
    } else {
        seq![skip_line(artifacts[i], date)] + skip_lines(artifacts, i + 1, j, date)
    }
}

/// The summary printed when the chain completes.
pub open spec fn summary_lines(c: SessionConfig, critiqued: nat, crowned: Option<Seq<char>>) -> Seq<Seq<char>> {
    let cr = match crowned {
        Some(t) => t,
        None => "(none)"@,
    };
    let dest = match c.columns_dir {
        Some(d) => d@,
        None => "columns slot"@,
    };
    seq![
        Seq::<char>::empty(),
        "Session complete for "@ + c.date@ + ":"@,
        "  "@ + crate::text::decimal(critiqued) + " artifact(s) critiqued"@,
        "  Crowned bon mot: "@ + cr,
        "  Column → "@ + dest,
    ]
}

/// From artifact `i` on: skip those already recorded, then critique the next
/// one, or compose once none is left. Returns the new state, the lines to
/// print (after `prefix`) and the action.
pub open spec fn continue_critiques(c: SessionConfig, s: SessionView, i: int, prefix: Seq<Seq<char>>) -> (SessionView, Seq<Seq<char>>, ActionView) {
    let j = next_unrecorded(s.artifacts, s.recorded, i);
    let lines = prefix + skip_lines(s.artifacts, i, j, c.date@);
    let crit = s.critiqued + (j - i);
    if j < s.artifacts.len() {
        (SessionView { phase: Phase::Critique, current: j, critiqued: crit, ..s }, lines, critique_action(c, s.artifacts[j]))
    } else {
        (SessionView { phase: Phase::Compose, current: j, critiqued: crit, ..s }, lines, compose_action(c))
    }
}

/// The session's answer to event `e` in state `s`: its new state, the lines to
/// print and the action to perform.
pub open spec fn transition(c: SessionConfig, s: SessionView, e: EventView) -> (SessionView, Seq<Seq<char>>, ActionView) {
    let done = SessionView { phase: Phase::Done, ..s };
    match s.phase {
        Phase::Start => if c.dry_run {
            (done, dry_run_plan(c), ActionView::Finish)
        } else {
            (SessionView { phase: Phase::Lunch, ..s }, Seq::empty(), lunch_action(c))
        },
        Phase::Lunch => match e {
            EventView::Exited { started, success, code } => if !started {
                (done, Seq::empty(), ActionView::Fail { message: start_failure("lunch"@) })
            } else if !success {
                (done, Seq::empty(), ActionView::Fail { message: lunch_failure(c, code) })
            } else {
                (
                    SessionView { phase: Phase::Table, ..s },
                    seq!["✓ lunch: table set for "@ + c.date@],
                    ActionView::LoadTable { path: c.table_path@ },
                )
            },
            _ => (s, Seq::empty(), ActionView::Finish),
        },
        Phase::Table => match e {
            EventView::TableLoaded(None) => (done, Seq::empty(), ActionView::Fail { message: table_failure(c) }),
            EventView::TableLoaded(Some(arts)) => if arts.len() == 0 {
                (
                    SessionView { phase: Phase::Done, artifacts: arts, ..s },
                    seq!["no artifacts on the table today — nothing to critique. Session complete."@],
                    ActionView::Finish,
                )
            } else {
                (SessionView { phase: Phase::Ledger, artifacts: arts, ..s }, Seq::empty(), ActionView::LoadRecorded)
            },
            _ => (s, Seq::empty(), ActionView::Finish),
        },
        Phase::Ledger => match e {
            EventView::RecordedLoaded(None) => (
                done,
                Seq::empty(),
                ActionView::Fail { message: "checking ledger for already-recorded artifacts"@ },
            ),
            EventView::RecordedLoaded(Some(rec)) => continue_critiques(c, SessionView { recorded: rec, ..s }, 0, Seq::empty()),
            _ => (s, Seq::empty(), ActionView::Finish),
        },
        Phase::Critique => match e {
            EventView::Exited { started, success, code } => {
                let a = s.artifacts[s.current];
                if !started {
                    (done, Seq::empty(), ActionView::Fail { message: start_failure(critique_stage(a)) })
                } else if !success {
                    (done, Seq::empty(), ActionView::Fail { message: exit_failure(critique_stage(a), code) })
                } else {
                    continue_critiques(
                        c,
                        SessionView { critiqued: s.critiqued + 1, ..s },
                        s.current + 1,
                        seq!["  ✓ critiqued: "@ + a],
                    )
                }
            },
            _ => (s, Seq::empty(), ActionView::Finish),
        },
        Phase::Compose => match e {
            EventView::Exited { started, success, code } => if !started {
                (done, Seq::empty(), ActionView::Fail { message: start_failure("compose"@) })
            } else if !success {
                (done, Seq::empty(), ActionView::Fail { message: exit_failure("compose"@, code) })
            } else {
                (SessionView { phase: Phase::Syndicate, ..s }, Seq::empty(), syndicate_action(c))
            },
            _ => (s, Seq::empty(), ActionView::Finish),
        },
        Phase::Syndicate => match e {
            EventView::Exited { started, success, code } => if !started {
                (done, Seq::empty(), ActionView::Fail { message: start_failure("syndicate"@) })
            } else if !success {
                (done, Seq::empty(), ActionView::Fail { message: exit_failure("syndicate"@, code) })
            } else {
                (SessionView { phase: Phase::Crowned, ..s }, Seq::empty(), ActionView::LoadCrowned)
            },
            _ => (s, Seq::empty(), ActionView::Finish),
        },
        Phase::Crowned => match e {
            EventView::CrownedLoaded(None) => (
                done,
                Seq::empty(),
                ActionView::Fail { message: "reading crowned bon mot from ledger"@ },
            ),
            EventView::CrownedLoaded(Some(cr)) => (done, summary_lines(c, s.critiqued as nat, cr), ActionView::Finish),
            _ => (s, Seq::empty(), ActionView::Finish),
        },
        Phase::Done => (s, Seq::empty(), ActionView::Finish),
    }
}

impl View for Session {
    type V = SessionView;

    /// The session seen through the characters of its strings.
    open spec fn view(&self) -> SessionView {
        SessionView {
            phase: self.phase,
            artifacts: texts(self.artifacts@),
            recorded: texts(self.recorded@),
            current: self.current as int,
            critiqued: self.critiqued as int,
        }
    }
}

impl Session {

    /// The session's bookkeeping is consistent: in phase `Critique` the current
    /// artifact exists and every artifact before it is counted.
    pub open spec fn wf(&self) -> bool {
        &&& self.critiqued <= self.artifacts.len()
        &&& self.phase == Phase::Critique ==> self.current < self.artifacts.len() && self.critiqued == self.current
        &&& (self.phase == Phase::Start || self.phase == Phase::Lunch || self.phase == Phase::Table
            || self.phase == Phase::Ledger) ==> self.critiqued == 0
    }

    /// Event `e` is the kind of report the session waits for.
    pub open spec fn awaits(&self, e: EventView) -> bool {
        match self.phase {
            Phase::Start => e is Begin,
            Phase::Lunch | Phase::Critique | Phase::Compose | Phase::Syndicate => e is Exited,
            Phase::Table => e is TableLoaded,
            Phase::Ledger => e is RecordedLoaded,
            Phase::Crowned => e is CrownedLoaded,
            Phase::Done => false,
        }
    }

    /// A session about to begin.
    pub fn new(config: SessionConfig) -> (r: Session)
        ensures
            r.config == config,
            r.phase == Phase::Start,
            r.artifacts@.len() == 0,
            r.recorded@.len() == 0,
            r.current == 0,
            r.critiqued == 0,
            r.wf(),
    {
        Session { config, phase: Phase::Start, artifacts: Vec::new(), recorded: Vec::new(), current: 0, critiqued: 0 }
    }
}

proof fn lemma_skip_lines_push(artifacts: Seq<Seq<char>>, i: int, j: int, date: Seq<char>)
    requires
        i <= j,
    ensures
        skip_lines(artifacts, i, j + 1, date) == skip_lines(artifacts, i, j, date).push(skip_line(artifacts[j], date)),
    decreases j - i,
{
    if i < j {
        lemma_skip_lines_push(artifacts, i + 1, j, date);
        assert(skip_lines(artifacts, i, j + 1, date) == seq![skip_line(artifacts[i], date)] + skip_lines(artifacts, i + 1, j + 1, date));
        assert(skip_lines(artifacts, i, j, date) == seq![skip_line(artifacts[i], date)] + skip_lines(artifacts, i + 1, j, date));
        assert(skip_lines(artifacts, i, j + 1, date) =~= skip_lines(artifacts, i, j, date).push(skip_line(artifacts[j], date)));
    } else {
        assert(skip_lines(artifacts, i + 1, j + 1, date) == Seq::<Seq<char>>::empty());
        assert(skip_lines(artifacts, i, j + 1, date) =~= skip_lines(artifacts, i, j, date).push(skip_line(artifacts[j], date)));
    }
}

/// Appends how an optional exit code prints with `{:?}`.
fn push_code(out: &mut Vec<char>, code: Option<i32>)
    ensures
        final(out)@ == old(out)@ + code_text(code),
{
    match code {
        Some(v) => {
            push_str(out, "Some(");
            push_padded(out, v as i64, 0);
            push_str(out, ")");
        },
        None => {
            push_str(out, "None");
        },
    }
}

fn start_failure_message(stage: &str) -> (r: String)
    ensures
        r@ == start_failure(stage@),
{
    let mut out: Vec<char> = Vec::new();
    push_str(&mut out, "failed to start stage `");
    push_str(&mut out, stage);
    push_str(&mut out, "`");
    string_of(&out)
}

fn exit_failure_chars(stage: &str, code: Option<i32>) -> (r: Vec<char>)
    ensures
        r@ == exit_failure(stage@, code),
{
    let mut out: Vec<char> = Vec::new();
    push_str(&mut out, "stage `");
    push_str(&mut out, stage);
    push_str(&mut out, "` failed (exit ");
    push_code(&mut out, code);
    push_str(&mut out, ")");
    out
}

fn recorded_contains(recorded: &Vec<String>, a: &String) -> (r: bool)
    ensures
        r == is_recorded(texts(recorded@), a@),
        r <==> exists|k: int| 0 <= k < recorded@.len() && path_key(#[trigger] recorded@[k]@) == path_key(a@),
{
    let mut k: usize = 0;
    while k < recorded.len()
        invariant
            k <= recorded.len(),
            forall|t: int| 0 <= t < k ==> path_key(#[trigger] texts(recorded@)[t]) != path_key(a@),
        decreases recorded.len() - k,
    {
        if same_path(recorded[k].as_str(), a.as_str()) {
            assert(path_key(texts(recorded@)[k as int]) == path_key(a@));
            assert(texts(recorded@)[k as int] == recorded@[k as int]@);
            return true;
        }
        k += 1;
    }
    assert forall|t: int| 0 <= t < recorded@.len() implies path_key(#[trigger] recorded@[t]@) != path_key(a@) by {
        assert(texts(recorded@)[t] == recorded@[t]@);
    }
    false
}

fn critique_run(c: &SessionConfig, a: &String) -> (r: Action)
    ensures
        r.view() == critique_action(*c, a@),
{
    let mut stage: Vec<char> = Vec::new();
    push_str(&mut stage, "critique:");
    push_str(&mut stage, a.as_str());
    let argv = vec![c.circle_bin.clone(), "record".to_string(), a.clone(), "--ledger".to_string(), c.ledger.clone()];
    proof {
        assert(texts(argv@) == seq![c.circle_bin@, "record"@, a@, "--ledger"@, c.ledger@]);
    }
    Action::Run { stage: string_of(&stage), argv }
}

fn compose_run(c: &SessionConfig) -> (r: Action)
    ensures
        r.view() == compose_action(*c),
{
    let argv = vec![
        c.tower_bin.clone(),
        "compose".to_string(),
        "--ledger".to_string(),
        c.ledger.clone(),
        "--date".to_string(),
        c.date.clone(),
    ];
    assert(texts(argv@) == seq![c.tower_bin@, "compose"@, "--ledger"@, c.ledger@, "--date"@, c.date@]);
    Action::Run { stage: "compose".to_string(), argv }
}

fn syndicate_run(c: &SessionConfig) -> (r: Action)
    ensures
        r.view() == syndicate_action(*c),
{
    let mut argv = vec![
        c.tower_bin.clone(),
        "syndicate".to_string(),
        "--ledger".to_string(),
        c.ledger.clone(),
        "--date".to_string(),
        c.date.clone(),
        "--to".to_string(),
        "columns".to_string(),
    ];
    let ghost head = texts(argv@);
    assert(head == seq![c.tower_bin@, "syndicate"@, "--ledger"@, c.ledger@, "--date"@, c.date@, "--to"@, "columns"@]);
    if let Some(d) = &c.columns_dir {
        argv.push("--columns-dir".to_string());
        argv.push(d.clone());
        assert(texts(argv@) == head + seq!["--columns-dir"@, d@]);
    } else {
        assert(texts(argv@) == head + Seq::<Seq<char>>::empty());
    }
    Action::Run { stage: "syndicate".to_string(), argv }
}

fn lunch_run(c: &SessionConfig) -> (r: Action)
    ensures
        r.view() == lunch_action(*c),
{
    let argv = vec![c.lunch_bin.clone(), "lunch".to_string(), "--date".to_string(), c.date.clone()];
    assert(texts(argv@) == seq![c.lunch_bin@, "lunch"@, "--date"@, c.date@]);
    Action::Run { stage: "lunch".to_string(), argv }
}

fn dry_run_lines(c: &SessionConfig) -> (r: Vec<String>)
    ensures
        texts(r@) == dry_run_plan(*c),
{
    let cd: &str = match &c.columns_dir {
        Some(d) => d.as_str(),
        None => "<--columns-dir required>",
    };
    let mut r: Vec<String> = Vec::new();
    r.push("[dry-run] stage: lunch".to_string());
    let mut l2: Vec<char> = Vec::new();
    push_str(&mut l2, "  command: ");
    push_str(&mut l2, c.lunch_bin.as_str());
    push_str(&mut l2, " lunch --date ");
    push_str(&mut l2, c.date.as_str());
    r.push(string_of(&l2));
    let mut l3: Vec<char> = Vec::new();
    push_str(&mut l3, "[dry-run] stage: read table from ");
    push_str(&mut l3, c.table_path.as_str());
    r.push(string_of(&l3));
    let mut l4: Vec<char> = Vec::new();
    push_str(&mut l4, "[dry-run] stage: for each artifact: vicious-circle record <artifact> --ledger ");
    push_str(&mut l4, c.ledger.as_str());
    r.push(string_of(&l4));
    let mut l5: Vec<char> = Vec::new();
    push_str(&mut l5, "[dry-run] stage: conning-tower compose --ledger ");
    push_str(&mut l5, c.ledger.as_str());
    push_str(&mut l5, " --date ");
    push_str(&mut l5, c.date.as_str());
    r.push(string_of(&l5));
    let mut l6: Vec<char> = Vec::new();
    push_str(&mut l6, "[dry-run] stage: conning-tower syndicate --ledger ");
    push_str(&mut l6, c.ledger.as_str());
    push_str(&mut l6, " --date ");
    push_str(&mut l6, c.date.as_str());
    push_str(&mut l6, " --to columns --columns-dir ");
    push_str(&mut l6, cd);
    r.push(string_of(&l6));
    let mut l7: Vec<char> = Vec::new();
    push_str(&mut l7, "[dry-run] the-lunch lunch --date ");
    push_str(&mut l7, c.date.as_str());
    push_str(&mut l7, " plan printed; no files were written.");
    r.push(string_of(&l7));
    assert(texts(r@) =~= dry_run_plan(*c));
    r
}

fn summary(c: &SessionConfig, critiqued: usize, crowned: Option<String>) -> (r: Vec<String>)
    ensures
        texts(r@) == summary_lines(*c, critiqued as nat, opt_text(crowned)),
{
    let mut r: Vec<String> = Vec::new();
    r.push(String::new());
    let mut l2: Vec<char> = Vec::new();
    push_str(&mut l2, "Session complete for ");
    push_str(&mut l2, c.date.as_str());
    push_str(&mut l2, ":");
    r.push(string_of(&l2));
    let mut l3: Vec<char> = Vec::new();
    push_str(&mut l3, "  ");
    crate::text::push_decimal(&mut l3, critiqued as u64);
    push_str(&mut l3, " artifact(s) critiqued");
    r.push(string_of(&l3));
    let mut l4: Vec<char> = Vec::new();
    push_str(&mut l4, "  Crowned bon mot: ");
    match &crowned {
        Some(t) => push_str(&mut l4, t.as_str()),
        None => push_str(&mut l4, "(none)"),
    }
    r.push(string_of(&l4));
    let mut l5: Vec<char> = Vec::new();
    push_str(&mut l5, "  Column → ");
    match &c.columns_dir {
        Some(d) => push_str(&mut l5, d.as_str()),
        None => push_str(&mut l5, "columns slot"),
    }
    r.push(string_of(&l5));
    assert(texts(r@) =~= summary_lines(*c, critiqued as nat, opt_text(crowned)));
    r
}

impl Session {
    /// From artifact `i` on: skips those already recorded, then critiques the
    /// next one, or composes once none is left.
    fn continue_critiques(&mut self, i: usize, prefix: Vec<String>) -> (r: Step)
        requires
            i <= old(self).artifacts.len(),
            old(self).critiqued == i,
        ensures
            ({
                let (ns, out, act) = continue_critiques(old(self).config, old(self).view(), i as int, texts(prefix@));
                final(self).view() == ns && texts(r.output@) == out && r.action.view() == act
            }),
            final(self).config == old(self).config,
            final(self).wf(),
    {
        let ghost s0 = self.view();
        let mut output = prefix;
        let mut j: usize = i;
        while j < self.artifacts.len() && recorded_contains(&self.recorded, &self.artifacts[j])
            invariant
                i <= j <= self.artifacts.len(),
                self.critiqued == j,
                self.config == old(self).config,
                self.artifacts == old(self).artifacts,
                self.recorded == old(self).recorded,
                self.phase == old(self).phase,
                self.current == old(self).current,
                s0 == old(self).view(),
                next_unrecorded(s0.artifacts, s0.recorded, i as int) == next_unrecorded(s0.artifacts, s0.recorded, j as int),
                texts(output@) == texts(prefix@) + skip_lines(s0.artifacts, i as int, j as int, self.config.date@),
            decreases self.artifacts.len() - j,
        {
            let mut line: Vec<char> = Vec::new();
            push_str(&mut line, "  (skipping ");
            push_str(&mut line, self.artifacts[j].as_str());
            push_str(&mut line, ": already in ledger for ");
            push_str(&mut line, self.config.date.as_str());
            push_str(&mut line, ")");
            let ghost before = texts(output@);
            output.push(string_of(&line));
            proof {
                lemma_skip_lines_push(s0.artifacts, i as int, j as int, self.config.date@);
                assert(s0.artifacts[j as int] == self.artifacts@[j as int]@);
                assert(texts(output@) == before.push(skip_line(s0.artifacts[j as int], self.config.date@)));
            }
            self.critiqued = self.critiqued + 1;
            j += 1;
        }
        self.current = j;
        if j < self.artifacts.len() {
            self.phase = Phase::Critique;
            let action = critique_run(&self.config, &self.artifacts[j]);
            Step { output, action }
        } else {
            self.phase = Phase::Compose;
            let action = compose_run(&self.config);
            Step { output, action }
        }
    }
}

impl Session {
    /// Answers one event: moves to the next phase and says what to print and
    /// what to do. A failed stage ends the session at once with a failure
    /// naming the stage.
    pub fn step(&mut self, event: Event) -> (r: Step)
        requires
            old(self).wf(),
            old(self).awaits(event.view()),
        ensures
            ({
                let (ns, out, act) = transition(old(self).config, old(self).view(), event.view());
                final(self).view() == ns && texts(r.output@) == out && r.action.view() == act
            }),
            final(self).config == old(self).config,
            final(self).wf(),
    {
        match self.phase {
            Phase::Start => {
                if self.config.dry_run {
                    let output = dry_run_lines(&self.config);
                    self.phase = Phase::Done;
                    Step { output, action: Action::Finish }
                } else {
                    self.phase = Phase::Lunch;
                    let action = lunch_run(&self.config);
                    Step { output: Vec::new(), action }
                }
            },
            Phase::Lunch => {
                let x = match event {
                    Event::Exited(x) => x,
                    _ => { return vstd::pervasive::unreached(); },
                };
                if !x.started {
                    self.phase = Phase::Done;
                    let message = start_failure_message("lunch");
                    Step { output: Vec::new(), action: Action::Fail { message } }
                } else if !x.success {
                    self.phase = Phase::Done;
                    let mut msg = exit_failure_chars("lunch", x.code);
                    push_str(&mut msg, ": ");
                    push_str(&mut msg, self.config.lunch_bin.as_str());
                    push_str(&mut msg, " lunch --date ");
                    push_str(&mut msg, self.config.date.as_str());
                    Step { output: Vec::new(), action: Action::Fail { message: string_of(&msg) } }
                } else {
                    self.phase = Phase::Table;
                    let mut line: Vec<char> = Vec::new();
                    push_str(&mut line, "✓ lunch: table set for ");
                    push_str(&mut line, self.config.date.as_str());
                    let output = vec![string_of(&line)];
                    Step { output, action: Action::LoadTable { path: self.config.table_path.clone() } }
                }
            },
            Phase::Table => {
                let loaded = match event {
                    Event::TableLoaded(t) => t,
                    _ => { return vstd::pervasive::unreached(); },
                };
                match loaded {
                    Ok(t) => {
                        let arts = t.present_artifacts();
                        if arts.len() == 0 {
                            self.artifacts = arts;
                            self.phase = Phase::Done;
                            let output = vec!["no artifacts on the table today — nothing to critique. Session complete.".to_string()];
                            Step { output, action: Action::Finish }
                        } else {
                            self.artifacts = arts;
                            self.phase = Phase::Ledger;
                            Step { output: Vec::new(), action: Action::LoadRecorded }
                        }
                    },
                    Err(_) => {
                        self.phase = Phase::Done;
                        let mut msg: Vec<char> = Vec::new();
                        push_str(&mut msg, "reading table.json after `the-lunch lunch --date ");
                        push_str(&mut msg, self.config.date.as_str());
                        push_str(&mut msg, "`");
                        Step { output: Vec::new(), action: Action::Fail { message: string_of(&msg) } }
                    },
                }
            },
            Phase::Ledger => {
                let loaded = match event {
                    Event::RecordedLoaded(v) => v,
                    _ => { return vstd::pervasive::unreached(); },
                };
                match loaded {
                    Ok(rec) => {
                        self.recorded = rec;
                        self.continue_critiques(0, Vec::new())
                    },
                    Err(_) => {
                        self.phase = Phase::Done;
                        let message = "checking ledger for already-recorded artifacts".to_string();
                        Step { output: Vec::new(), action: Action::Fail { message } }
                    },
                }
            },
            Phase::Critique => {
                let x = match event {
                    Event::Exited(x) => x,
                    _ => { return vstd::pervasive::unreached(); },
                };
                let mut stage: Vec<char> = Vec::new();
                push_str(&mut stage, "critique:");
                push_str(&mut stage, self.artifacts[self.current].as_str());
                let stage = string_of(&stage);
                if !x.started {
                    self.phase = Phase::Done;
                    let message = start_failure_message(stage.as_str());
                    Step { output: Vec::new(), action: Action::Fail { message } }
                } else if !x.success {
                    self.phase = Phase::Done;
                    let msg = exit_failure_chars(stage.as_str(), x.code);
                    Step { output: Vec::new(), action: Action::Fail { message: string_of(&msg) } }
                } else {
                    let mut line: Vec<char> = Vec::new();
                    push_str(&mut line, "  ✓ critiqued: ");
                    push_str(&mut line, self.artifacts[self.current].as_str());
                    let prefix = vec![string_of(&line)];
                    self.critiqued = self.critiqued + 1;
                    let next = self.current + 1;
                    self.continue_critiques(next, prefix)
                }
            },
            Phase::Compose => {
                let x = match event {
                    Event::Exited(x) => x,
                    _ => { return vstd::pervasive::unreached(); },
                };
                if !x.started {
                    self.phase = Phase::Done;
                    let message = start_failure_message("compose");
                    Step { output: Vec::new(), action: Action::Fail { message } }
                } else if !x.success {
                    self.phase = Phase::Done;
                    let msg = exit_failure_chars("compose", x.code);
                    Step { output: Vec::new(), action: Action::Fail { message: string_of(&msg) } }
                } else {
                    self.phase = Phase::Syndicate;
                    let action = syndicate_run(&self.config);
                    Step { output: Vec::new(), action }
                }
            },
            Phase::Syndicate => {
                let x = match event {
                    Event::Exited(x) => x,
                    _ => { return vstd::pervasive::unreached(); },
                };
                if !x.started {
                    self.phase = Phase::Done;
                    let message = start_failure_message("syndicate");
                    Step { output: Vec::new(), action: Action::Fail { message } }
                } else if !x.success {
                    self.phase = Phase::Done;
                    let msg = exit_failure_chars("syndicate", x.code);
                    Step { output: Vec::new(), action: Action::Fail { message: string_of(&msg) } }
                } else {
                    self.phase = Phase::Crowned;
                    Step { output: Vec::new(), action: Action::LoadCrowned }
                }
            },
            Phase::Crowned => {
                let loaded = match event {
                    Event::CrownedLoaded(c) => c,
                    _ => { return vstd::pervasive::unreached(); },
                };
                self.phase = Phase::Done;
                match loaded {
                    Ok(c) => {
                        let output = summary(&self.config, self.critiqued, c);
                        Step { output, action: Action::Finish }
                    },
                    Err(_) => {
                        let message = "reading crowned bon mot from ledger".to_string();
                        Step { output: Vec::new(), action: Action::Fail { message } }
                    },
                }
            },
            Phase::Done => vstd::pervasive::unreached(),
        }
    }
}

/// The stage a phase waits on.
pub open spec fn stage_of(s: SessionView) -> Seq<char> {
    match s.phase {
        Phase::Lunch => "lunch"@,
        Phase::Critique => critique_stage(s.artifacts[s.current]),
        Phase::Compose => "compose"@,
        Phase::Syndicate => "syndicate"@,
        _ => Seq::empty(),
    }
}

/// A stage that cannot start or exits unsuccessfully ends the session: the
/// answer is a failure whose message names the stage, and a finished session
/// waits for nothing more, so no later stage runs.
pub proof fn lemma_broken_stage_stops_chain(session: Session, started: bool, success: bool, code: Option<i32>)
    requires
        session.wf(),
        session.phase == Phase::Lunch || session.phase == Phase::Critique
            || session.phase == Phase::Compose || session.phase == Phase::Syndicate,
        !started || !success,
    ensures
        ({
            let e = EventView::Exited { started, success, code };
            let (ns, out, act) = transition(session.config, session.view(), e);
            &&& ns.phase == Phase::Done
            &&& out.len() == 0
            &&& act matches ActionView::Fail { message } && has_text(message, stage_of(session.view()))
        }),
{
    let s = session.view();
    let st = stage_of(s);
    if !started {
        lemma_has_text_middle("failed to start stage `"@, st, "`"@);
    } else {
        let mid = "` failed (exit "@ + code_text(code) + ")"@;
        lemma_has_text_middle("stage `"@, st, mid);
        assert(exit_failure(st, code) == "stage `"@ + st + mid);
        if session.phase == Phase::Lunch {
            let tail = ": "@ + session.config.lunch_bin@ + " lunch --date "@ + session.config.date@;
            assert(lunch_failure(session.config, code) == ("stage `"@ + st + mid) + tail);
            let k = choose|k: int| 0 <= k && k + st.len() <= ("stage `"@ + st + mid).len()
                && #[trigger] ("stage `"@ + st + mid).subrange(k, k + st.len()) == st;
            assert(lunch_failure(session.config, code).subrange(k, k + st.len()) == st);
        }
    }
}

/// A finished session waits for no event: nothing runs after it.
pub proof fn lemma_done_waits_for_nothing(session: Session, e: EventView)
    requires
        session.phase == Phase::Done,
    ensures
        !session.awaits(e),
{
}

/// The session only ever asks to record a critique of an artifact the ledger
/// does not record for the date yet (re-running a day records nothing twice),
/// and only after every earlier artifact was skipped or critiqued.
pub proof fn lemma_never_recritiques(session: Session, e: EventView)
    requires
        session.wf(),
        session.awaits(e),
    ensures
        ({
            let (ns, out, act) = transition(session.config, session.view(), e);
            ns.phase == Phase::Critique ==> {
                &&& 0 <= ns.current < ns.artifacts.len()
                &&& !is_recorded(ns.recorded, ns.artifacts[ns.current])
                &&& act == critique_action(session.config, ns.artifacts[ns.current])
                &&& ns.critiqued == ns.current
            }
        }),
{
    let s = session.view();
    match s.phase {
        Phase::Ledger => {
            if let EventView::RecordedLoaded(Some(rec)) = e {
                lemma_next_unrecorded(s.artifacts, rec, 0);
            }
        },
        Phase::Critique => {
            if let EventView::Exited { started, success, code } = e {
                lemma_next_unrecorded(s.artifacts, s.recorded, s.current + 1);
            }
        },
        _ => {},
    }
}

proof fn lemma_next_unrecorded(artifacts: Seq<Seq<char>>, recorded: Seq<Seq<char>>, i: int)
    requires
        0 <= i <= artifacts.len(),
    ensures
        i <= next_unrecorded(artifacts, recorded, i) <= artifacts.len(),
        next_unrecorded(artifacts, recorded, i) < artifacts.len() ==>
            !is_recorded(recorded, artifacts[next_unrecorded(artifacts, recorded, i)]),
        forall|k: int| i <= k < next_unrecorded(artifacts, recorded, i) ==> is_recorded(recorded, #[trigger] artifacts[k]),
    decreases artifacts.len() - i,
{
    if i < artifacts.len() && is_recorded(recorded, artifacts[i]) {
        lemma_next_unrecorded(artifacts, recorded, i + 1);
    }
}

/// Composing starts only once every artifact on the table is accounted for:
/// each was critiqued now or skipped as already recorded.
pub proof fn lemma_compose_after_all_artifacts(session: Session, e: EventView)
    requires
        session.wf(),
        session.awaits(e),
    ensures
        ({
            let (ns, out, act) = transition(session.config, session.view(), e);
            ns.phase == Phase::Compose ==> ns.critiqued == ns.artifacts.len() && act == compose_action(session.config)
        }),
{
    let s = session.view();
    match s.phase {
        Phase::Ledger => {
            if let EventView::RecordedLoaded(Some(rec)) = e {
                lemma_next_unrecorded(s.artifacts, rec, 0);
            }
        },
        Phase::Critique => {
            if let EventView::Exited { started, success, code } = e {
                lemma_next_unrecorded(s.artifacts, s.recorded, s.current + 1);
            }
        },
        _ => {},
    }
}

/// A dry run prints its plan and finishes at once: it runs no command and so
/// writes nothing.
pub proof fn lemma_dry_run_runs_nothing(session: Session)
    requires
        session.phase == Phase::Start,
        session.config.dry_run,
    ensures
        ({
            let (ns, out, act) = transition(session.config, session.view(), EventView::Begin);
            ns.phase == Phase::Done && act == ActionView::Finish && out == dry_run_plan(session.config)
        }),
{
}

proof fn lemma_all_recorded(artifacts: Seq<Seq<char>>, recorded: Seq<Seq<char>>, i: int)
    requires
        0 <= i <= artifacts.len(),
        forall|k: int| 0 <= k < artifacts.len() ==> is_recorded(recorded, #[trigger] artifacts[k]),
    ensures
        next_unrecorded(artifacts, recorded, i) == artifacts.len(),
    decreases artifacts.len() - i,
{
    if i < artifacts.len() {
        lemma_all_recorded(artifacts, recorded, i + 1);
    }
}

/// Re-running a day whose artifacts the ledger already records for the date
/// records nothing again: every artifact is skipped and the chain goes on to
/// composing.
pub proof fn lemma_rerun_records_nothing(session: Session, recorded: Seq<Seq<char>>)
    requires
        session.wf(),
        session.phase == Phase::Ledger,
        forall|k: int| 0 <= k < session.view().artifacts.len()
            ==> is_recorded(recorded, #[trigger] session.view().artifacts[k]),
    ensures
        ({
            let s = session.view();
            let (ns, out, act) = transition(session.config, s, EventView::RecordedLoaded(Some(recorded)));
            &&& ns.phase == Phase::Compose
            &&& act == compose_action(session.config)
            &&& out == skip_lines(s.artifacts, 0, s.artifacts.len() as int, session.config.date@)
        }),
{
    lemma_all_recorded(session.view().artifacts, recorded, 0);
}

/// A stage report of a command that started and exited successfully.
pub open spec fn ok_exit() -> EventView {
    EventView::Exited { started: true, success: true, code: Some(0i32) }
}

/// The critiques to record, in table order, for the artifacts from `i` on
/// that the ledger does not record yet.
pub open spec fn critiques_for(c: SessionConfig, artifacts: Seq<Seq<char>>, recorded: Seq<Seq<char>>, i: int) -> Seq<ActionView>
    decreases artifacts.len() - i,
{
    if i < 0 || i >= artifacts.len() {
        Seq::empty()
    } else if is_recorded(recorded, artifacts[i]) {
        critiques_for(c, artifacts, recorded, i + 1)
    } else {
        seq![critique_action(c, artifacts[i])] + critiques_for(c, artifacts, recorded, i + 1)
    }
}

/// Answering every critique of a session with a successful report, at most `n`
/// times, starting in state `s` with pending action `a`: the critique actions
/// performed in order, the state reached and the action pending then.
pub open spec fn critique_chain(c: SessionConfig, s: SessionView, a: ActionView, n: nat) -> (Seq<ActionView>, SessionView, ActionView)
    decreases n,
{
    if n == 0 || s.phase != Phase::Critique {
        (Seq::empty(), s, a)
    } else {
        let (ns, out, na) = transition(c, s, ok_exit());
        let (rest, fin, last) = critique_chain(c, ns, na, (n - 1) as nat);
        (seq![a] + rest, fin, last)
    }
}

proof fn lemma_critiques_skip(c: SessionConfig, artifacts: Seq<Seq<char>>, recorded: Seq<Seq<char>>, i: int, j: int)
    requires
        0 <= i <= j <= artifacts.len(),
        forall|k: int| i <= k < j ==> is_recorded(recorded, #[trigger] artifacts[k]),
    ensures
        critiques_for(c, artifacts, recorded, i) == critiques_for(c, artifacts, recorded, j),
    decreases j - i,
{
    if i < j {
        lemma_critiques_skip(c, artifacts, recorded, i + 1, j);
    }
}

/// Where `continue_critiques` from artifact `i` lands: the critique of the
/// next unrecorded artifact, or composing, with every artifact before counted.
proof fn lemma_continue_lands(c: SessionConfig, s: SessionView, i: int, prefix: Seq<Seq<char>>)
    requires
        0 <= i <= s.artifacts.len(),
        s.critiqued == i,
    ensures
        ({
            let (ns, out, na) = continue_critiques(c, s, i, prefix);
            &&& ns.artifacts == s.artifacts
            &&& ns.recorded == s.recorded
            &&& ns.critiqued == ns.current
            &&& ns.current >= i
            &&& critiques_for(c, s.artifacts, s.recorded, i) == critiques_for(c, s.artifacts, s.recorded, ns.current)
            &&& (ns.phase == Phase::Critique && 0 <= ns.current < s.artifacts.len()
                    && !is_recorded(s.recorded, s.artifacts[ns.current]) && na == critique_action(c, s.artifacts[ns.current]))
                || (ns.phase == Phase::Compose && ns.current == s.artifacts.len() && na == compose_action(c))
        }),
{
    lemma_next_unrecorded(s.artifacts, s.recorded, i);
    let j = next_unrecorded(s.artifacts, s.recorded, i);
    lemma_critiques_skip(c, s.artifacts, s.recorded, i, j);
}

proof fn lemma_chain(c: SessionConfig, s: SessionView, a: ActionView, n: nat)
    requires
        s.critiqued == s.current,
        (s.phase == Phase::Critique && 0 <= s.current < s.artifacts.len()
            && !is_recorded(s.recorded, s.artifacts[s.current]) && a == critique_action(c, s.artifacts[s.current])
            && n >= s.artifacts.len() - s.current)
        || (s.phase == Phase::Compose && s.current == s.artifacts.len() && a == compose_action(c)),
    ensures
        ({
            let (issued, fin, last) = critique_chain(c, s, a, n);
            &&& issued == critiques_for(c, s.artifacts, s.recorded, s.current)
            &&& fin.phase == Phase::Compose
            &&& fin.critiqued == s.artifacts.len()
            &&& last == compose_action(c)
        }),
    decreases n,
{
    if s.phase == Phase::Critique {
        let s2 = SessionView { critiqued: s.critiqued + 1, ..s };
        let prefix = seq!["  ✓ critiqued: "@ + s.artifacts[s.current]];
        lemma_continue_lands(c, s2, s.current + 1, prefix);
        let (ns, out, na) = transition(c, s, ok_exit());
        assert((ns, out, na) == continue_critiques(c, s2, s.current + 1, prefix));
        lemma_chain(c, ns, na, (n - 1) as nat);
    }
}

/// A whole run from the ledger's records on: when every stage succeeds, the
/// session records a critique of exactly the table's artifacts that the ledger
/// does not record yet, once each and in table order, never one it records,
/// and reaches composing with every artifact counted as critiqued (skipped
/// ones included). Re-running a day therefore adds no ledger entry.
pub proof fn lemma_run_records_each_new_artifact_once(session: Session, recorded: Seq<Seq<char>>)
    requires
        session.wf(),
        session.phase == Phase::Ledger,
    ensures
        ({
            let c = session.config;
            let s = session.view();
            let (s1, out1, a1) = transition(c, s, EventView::RecordedLoaded(Some(recorded)));
            let (issued, fin, last) = critique_chain(c, s1, a1, s.artifacts.len());
            &&& issued == critiques_for(c, s.artifacts, recorded, 0)
            &&& issued == s.artifacts.filter(unrecorded_pred(recorded)).map_values(|a: Seq<char>| critique_action(c, a))
            &&& fin.phase == Phase::Compose
            &&& fin.critiqued == s.artifacts.len()
            &&& last == compose_action(c)
        }),
{
    let c = session.config;
    let s = session.view();
    let sr = SessionView { recorded: recorded, ..s };
    lemma_continue_lands(c, sr, 0, Seq::empty());
    let (s1, out1, a1) = transition(c, s, EventView::RecordedLoaded(Some(recorded)));
    assert((s1, out1, a1) == continue_critiques(c, sr, 0, Seq::empty()));
    lemma_chain(c, s1, a1, s.artifacts.len());
    lemma_critiques_are_the_unrecorded(c, s.artifacts, recorded, 0);
    assert(s.artifacts.subrange(0, s.artifacts.len() as int) == s.artifacts);
}

/// The critiques a run records are of artifacts the ledger does not record.
pub proof fn lemma_critiques_only_new(c: SessionConfig, artifacts: Seq<Seq<char>>, recorded: Seq<Seq<char>>, i: int)
    requires
        0 <= i,
    ensures
        forall|k: int| 0 <= k < critiques_for(c, artifacts, recorded, i).len() ==> exists|t: int|
            i <= t < artifacts.len() && !is_recorded(recorded, artifacts[t])
                && #[trigger] critiques_for(c, artifacts, recorded, i)[k] == critique_action(c, artifacts[t]),
    decreases artifacts.len() - i,
{
    if i < artifacts.len() {
        lemma_critiques_only_new(c, artifacts, recorded, i + 1);
        let rest = critiques_for(c, artifacts, recorded, i + 1);
        let all = critiques_for(c, artifacts, recorded, i);
        if !is_recorded(recorded, artifacts[i]) {
            assert forall|k: int| 0 <= k < all.len() implies exists|t: int|
                i <= t < artifacts.len() && !is_recorded(recorded, artifacts[t])
                    && #[trigger] all[k] == critique_action(c, artifacts[t]) by {
                if k == 0 {
                    assert(all[0] == critique_action(c, artifacts[i]));
                } else {
                    assert(all[k] == rest[k - 1]);
                }
            }
        }
    }
}

/// An artifact counts as recorded exactly when some recorded path is the same
/// path as it (compared as `Path`s compare, component by component).
pub proof fn lemma_is_recorded_exact(recorded: Seq<Seq<char>>, a: Seq<char>)
    ensures
        is_recorded(recorded, a) <==> exists|k: int| 0 <= k < recorded.len() && path_key(#[trigger] recorded[k]) == path_key(a),
{
}

/// The artifacts that no recorded path equals, as paths.
pub open spec fn unrecorded_pred(recorded: Seq<Seq<char>>) -> spec_fn(Seq<char>) -> bool {
    |a: Seq<char>| !exists|k: int| 0 <= k < recorded.len() && path_key(#[trigger] recorded[k]) == path_key(a)
}

/// The critiques a run records from artifact `i` on are those of the
/// artifacts that equal no recorded path, in table order: the table filtered
/// by "not recorded", each turned into its `vicious-circle record` command.
pub proof fn lemma_critiques_are_the_unrecorded(c: SessionConfig, artifacts: Seq<Seq<char>>, recorded: Seq<Seq<char>>, i: int)
    requires
        0 <= i <= artifacts.len(),
    ensures
        critiques_for(c, artifacts, recorded, i) == artifacts.subrange(i, artifacts.len() as int)
            .filter(unrecorded_pred(recorded)).map_values(|a: Seq<char>| critique_action(c, a)),
    decreases artifacts.len() - i,
{
    reveal(Seq::filter);
    let p = unrecorded_pred(recorded);
    let sub = artifacts.subrange(i, artifacts.len() as int);
    if i == artifacts.len() {
        assert(sub.len() == 0);
        assert(sub.filter(p) =~= Seq::<Seq<char>>::empty());
        assert(sub.filter(p).map_values(|a: Seq<char>| critique_action(c, a)) =~= Seq::<ActionView>::empty());
    } else {
        lemma_critiques_are_the_unrecorded(c, artifacts, recorded, i + 1);
        let tail = artifacts.subrange(i + 1, artifacts.len() as int);
        assert(sub =~= seq![artifacts[i]] + tail);
        tail.lemma_filter_prepend(artifacts[i], p);
        let head: Seq<Seq<char>> = if p(artifacts[i]) { seq![artifacts[i]] } else { Seq::empty() };
        assert(sub.filter(p) == head + tail.filter(p));
        assert((head + tail.filter(p)).map_values(|a: Seq<char>| critique_action(c, a))
            =~= head.map_values(|a: Seq<char>| critique_action(c, a)) + tail.filter(p).map_values(|a: Seq<char>| critique_action(c, a)));
        lemma_is_recorded_exact(recorded, artifacts[i]);
        if p(artifacts[i]) {
            assert(!is_recorded(recorded, artifacts[i]));
            assert(head.map_values(|a: Seq<char>| critique_action(c, a)) =~= seq![critique_action(c, artifacts[i])]);
        } else {
            assert(is_recorded(recorded, artifacts[i]));
            assert(head.map_values(|a: Seq<char>| critique_action(c, a)) =~= Seq::<ActionView>::empty());
        }
    }
}

} // verus!
