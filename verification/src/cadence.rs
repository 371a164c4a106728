use vstd::prelude::*;
use crate::calendar::{
    add_days, add_days_outcome, days_later, is_calendar_date, jdn_fits, jdn_of, lemma_add_one_day,
    lemma_days_later, lemma_jdn_next_day, lemma_ymd_text_parse, next_calendar_day, parse_ymd,
    text_result, to_jdn, ymd_parse, ymd_text,
};
use crate::paths::{join_path, path_join};
use crate::text::{
    all_ascii, ascii_lower, chars_eq, chars_of, lowercase_of, opt_chars, push_str, string_of, to_lowercase,
};

verus! {

/// A day of the week.
#[derive(Debug, Clone, Copy, PartialEq, Eq, Structural)]
pub enum Weekday {
    Mon,
    Tue,
    Wed,
    Thu,
    Fri,
    Sat,
    Sun,
}

impl Weekday {
    /// The 0-based position of the day in the week, Monday first.
    pub open spec fn spec_index(self) -> nat {
        match self {
            Weekday::Mon => 0,
            Weekday::Tue => 1,
            Weekday::Wed => 2,
            Weekday::Thu => 3,
            Weekday::Fri => 4,
            Weekday::Sat => 5,
            Weekday::Sun => 6,
        }
    }

    /// The day at position `i` of the week, Monday being 0; `i` is taken modulo 7.
    pub open spec fn spec_from_index(i: int) -> Weekday {
        let r = i % 7;
        if r == 0 { Weekday::Mon }
        else if r == 1 { Weekday::Tue }
        else if r == 2 { Weekday::Wed }
        else if r == 3 { Weekday::Thu }
        else if r == 4 { Weekday::Fri }
        else if r == 5 { Weekday::Sat }
        else { Weekday::Sun }
    }

    /// 0-based index where Mon=0, Sun=6.
    pub fn index(self) -> (r: u32)
        ensures
            r == self.spec_index(),
            r < 7,
    {
        match self {
            Weekday::Mon => 0,
            Weekday::Tue => 1,
            Weekday::Wed => 2,
            Weekday::Thu => 3,
            Weekday::Fri => 4,
            Weekday::Sat => 5,
            Weekday::Sun => 6,
        }
    }

    pub fn from_index(i: u32) -> (w: Weekday)
        ensures
            w == Weekday::spec_from_index(i as int),
    {
        match i % 7 {
            0 => Weekday::Mon,
            1 => Weekday::Tue,
            2 => Weekday::Wed,
            3 => Weekday::Thu,
            4 => Weekday::Fri,
            5 => Weekday::Sat,
            _ => Weekday::Sun,
        }
    }
}

/// Why a date or weekday computation failed.
#[derive(Debug, Clone, Copy, PartialEq, Eq, Structural)]
pub enum CadenceError {
    /// The date does not have three `-`-separated parts.
    InvalidDate,
    /// The year part is not an `i64`.
    BadYear,
    /// The month part is not a `u32`.
    BadMonth,
    /// The day part is not a `u32`.
    BadDay,
    /// The text names no weekday.
    UnknownWeekday,
    /// The set of weekdays to search is empty.
    NoWeekdays,
    /// No matching weekday within seven days.
    NoMatchWithinWeek,
}

impl CadenceError {
    /// The message for this error, where `input` is the date or weekday text
    /// that was given.
    pub open spec fn spec_message(self, input: Seq<char>) -> Seq<char> {
        match self {
            CadenceError::InvalidDate => "invalid date: "@ + input,
            CadenceError::BadYear => "bad year in "@ + input,
            CadenceError::BadMonth => "bad month in "@ + input,
            CadenceError::BadDay => "bad day in "@ + input,
            CadenceError::UnknownWeekday => "unknown weekday: "@ + lowercase_of(input) + "; use mon/tue/wed/thu/fri/sat/sun"@,
            CadenceError::NoWeekdays => "no weekdays specified"@,
            CadenceError::NoMatchWithinWeek => "could not find a matching weekday within 7 days"@,
        }
    }

    /// The message for this error, where `input` is the date or weekday text
    /// that was given.
    pub fn message(self, input: &str) -> (r: String)
        ensures
            r@ == self.spec_message(input@),
    {
        let mut out: Vec<char> = Vec::new();
        match self {
            CadenceError::InvalidDate => {
                push_str(&mut out, "invalid date: ");
                push_str(&mut out, input);
            },
            CadenceError::BadYear => {
                push_str(&mut out, "bad year in ");
                push_str(&mut out, input);
            },
            CadenceError::BadMonth => {
                push_str(&mut out, "bad month in ");
                push_str(&mut out, input);
            },
            CadenceError::BadDay => {
                push_str(&mut out, "bad day in ");
                push_str(&mut out, input);
            },
            CadenceError::UnknownWeekday => {
                let lower = to_lowercase(input);
                push_str(&mut out, "unknown weekday: ");
                push_str(&mut out, lower.as_str());
                push_str(&mut out, "; use mon/tue/wed/thu/fri/sat/sun");
            },
            CadenceError::NoWeekdays => {
                push_str(&mut out, "no weekdays specified");
            },
            CadenceError::NoMatchWithinWeek => {
                push_str(&mut out, "could not find a matching weekday within 7 days");
            },
        }
        string_of(&out)
    }
}

/// What parsing an already lowercased weekday name gives.
pub open spec fn weekday_of_name(t: Seq<char>) -> Result<Weekday, CadenceError> {
    if t == seq!['m', 'o', 'n'] || t == seq!['m', 'o', 'n', 'd', 'a', 'y'] {
        Ok(Weekday::Mon)
    } else if t == seq!['t', 'u', 'e'] || t == seq!['t', 'u', 'e', 's', 'd', 'a', 'y'] {
        Ok(Weekday::Tue)
    } else if t == seq!['w', 'e', 'd'] || t == seq!['w', 'e', 'd', 'n', 'e', 's', 'd', 'a', 'y'] {
        Ok(Weekday::Wed)
    } else if t == seq!['t', 'h', 'u'] || t == seq!['t', 'h', 'u', 'r', 's', 'd', 'a', 'y'] {
        Ok(Weekday::Thu)
    } else if t == seq!['f', 'r', 'i'] || t == seq!['f', 'r', 'i', 'd', 'a', 'y'] {
        Ok(Weekday::Fri)
    } else if t == seq!['s', 'a', 't'] || t == seq!['s', 'a', 't', 'u', 'r', 'd', 'a', 'y'] {
        Ok(Weekday::Sat)
    } else if t == seq!['s', 'u', 'n'] || t == seq!['s', 'u', 'n', 'd', 'a', 'y'] {
        Ok(Weekday::Sun)
    } else {
        Err(CadenceError::UnknownWeekday)
    }
}

impl Weekday {
    /// The three-letter capitalised name, as `as_str` gives it.
    pub open spec fn short_name(self) -> Seq<char> {
        match self {
            Weekday::Mon => seq!['M', 'o', 'n'],
            Weekday::Tue => seq!['T', 'u', 'e'],
            Weekday::Wed => seq!['W', 'e', 'd'],
            Weekday::Thu => seq!['T', 'h', 'u'],
            Weekday::Fri => seq!['F', 'r', 'i'],
            Weekday::Sat => seq!['S', 'a', 't'],
            Weekday::Sun => seq!['S', 'u', 'n'],
        }
    }

    /// Parses a weekday name ("mon" or "monday", in any case).
    pub fn parse(s: &str) -> (r: Result<Weekday, CadenceError>)
        ensures
            r == weekday_of_name(lowercase_of(s@)),
            all_ascii(s@) ==> r == weekday_of_name(ascii_lower(s@)),
    {
        let lower = to_lowercase(s);
        Weekday::from_lowercase(lower.as_str())
    }

    /// Parses an already lowercased weekday name ("mon" or "monday").
    pub fn from_lowercase(name: &str) -> (r: Result<Weekday, CadenceError>)
        ensures
            r == weekday_of_name(name@),
    {
        let t = chars_of(name);
        if chars_eq(&t, &vec!['m', 'o', 'n']) || chars_eq(&t, &vec!['m', 'o', 'n', 'd', 'a', 'y']) {
            Ok(Weekday::Mon)
        } else if chars_eq(&t, &vec!['t', 'u', 'e']) || chars_eq(&t, &vec!['t', 'u', 'e', 's', 'd', 'a', 'y']) {
            Ok(Weekday::Tue)
        } else if chars_eq(&t, &vec!['w', 'e', 'd']) || chars_eq(&t, &vec!['w', 'e', 'd', 'n', 'e', 's', 'd', 'a', 'y']) {
            Ok(Weekday::Wed)
        } else if chars_eq(&t, &vec!['t', 'h', 'u']) || chars_eq(&t, &vec!['t', 'h', 'u', 'r', 's', 'd', 'a', 'y']) {
            Ok(Weekday::Thu)
        } else if chars_eq(&t, &vec!['f', 'r', 'i']) || chars_eq(&t, &vec!['f', 'r', 'i', 'd', 'a', 'y']) {
            Ok(Weekday::Fri)
        } else if chars_eq(&t, &vec!['s', 'a', 't']) || chars_eq(&t, &vec!['s', 'a', 't', 'u', 'r', 'd', 'a', 'y']) {
            Ok(Weekday::Sat)
        } else if chars_eq(&t, &vec!['s', 'u', 'n']) || chars_eq(&t, &vec!['s', 'u', 'n', 'd', 'a', 'y']) {
            Ok(Weekday::Sun)
        } else {
            Err(CadenceError::UnknownWeekday)
        }
    }

    /// The three-letter capitalised name ("Mon" .. "Sun").
    pub fn as_str(self) -> (r: &'static str)
        ensures
            r@ == self.short_name(),
    {
        proof {
            reveal_strlit("Mon");
            reveal_strlit("Tue");
            reveal_strlit("Wed");
            reveal_strlit("Thu");
            reveal_strlit("Fri");
            reveal_strlit("Sat");
            reveal_strlit("Sun");
        }
        match self {
            Weekday::Mon => "Mon",
            Weekday::Tue => "Tue",
            Weekday::Wed => "Wed",
            Weekday::Thu => "Thu",
            Weekday::Fri => "Fri",
            Weekday::Sat => "Sat",
            Weekday::Sun => "Sun",
        }
    }
}

/// What `weekday_of(s)` gives; `None` where its `i64` arithmetic would overflow.
pub open spec fn weekday_outcome(s: Seq<char>) -> Option<Result<Weekday, CadenceError>> {
    match ymd_parse(s) {
        Err(e) => Some(Err(e)),
        Ok((y, m, d)) => if jdn_fits(y, m, d) {
            Some(Ok(Weekday::spec_from_index(jdn_of(y, m, d))))
        } else {
            None
        },
    }
}

/// Returns the weekday of a "YYYY-MM-DD" date string.
pub fn weekday_of(date: &str) -> (r: Result<Weekday, CadenceError>)
    requires
        weekday_outcome(date@) is Some,
    ensures
        weekday_outcome(date@) == Some(r),
{
    let (y, m, d) = match parse_ymd(date) {
        Ok(t) => t,
        Err(e) => { return Err(e); },
    };
    let jdn = to_jdn(y, m, d);
    let idx = ((jdn % 7) + 7) as u32 % 7;
    assert(idx as int == (jdn as int) % 7);
    Ok(Weekday::from_index(idx))
}

/// Whether `wd` is one of `days`.
fn contains_day(days: &[Weekday], wd: Weekday) -> (r: bool)
    ensures
        r == days@.contains(wd),
{
    let mut i: usize = 0;
    while i < days.len()
        invariant
            i <= days.len(),
            forall|k: int| 0 <= k < i ==> days@[k] != wd,
        decreases days.len() - i,
    {
        if days[i] == wd {
            assert(days@[i as int] == wd);
            return true;
        }
        i += 1;
    }
    false
}

/// What the search of `next_day_in` gives from `s` with `fuel` days left to try;
/// `None` where its `i64` arithmetic would overflow.
pub open spec fn scan_outcome(s: Seq<char>, days: Seq<Weekday>, fuel: nat) -> Option<Result<Seq<char>, CadenceError>>
    decreases fuel,
{
    if fuel == 0 {
        Some(Err(CadenceError::NoMatchWithinWeek))
    } else {
        match weekday_outcome(s) {
            None => None,
            Some(Err(e)) => Some(Err(e)),
            Some(Ok(wd)) => if days.contains(wd) {
                Some(Ok(s))
            } else {
                match add_days_outcome(s, 1) {
                    None => None,
                    Some(Err(e)) => Some(Err(e)),
                    Some(Ok(t)) => scan_outcome(t, days, (fuel - 1) as nat),
                }
            },
        }
    }
}

/// What `next_day_in(s, days)` gives.
pub open spec fn next_day_in_outcome(s: Seq<char>, days: Seq<Weekday>) -> Option<Result<Seq<char>, CadenceError>> {
    if days.len() == 0 {
        Some(Err(CadenceError::NoWeekdays))
    } else {
        scan_outcome(s, days, 7)
    }
}

/// What `next_day_after(s, days)` gives.
pub open spec fn next_day_after_outcome(s: Seq<char>, days: Seq<Weekday>) -> Option<Result<Seq<char>, CadenceError>> {
    match add_days_outcome(s, 1) {
        None => None,
        Some(Err(e)) => Some(Err(e)),
        Some(Ok(t)) => next_day_in_outcome(t, days),
    }
}

/// Finds the next date (inclusive of `from_date`) that is one of the given weekdays.
pub fn next_day_in(from_date: &str, days: &[Weekday]) -> (r: Result<String, CadenceError>)
    requires
        next_day_in_outcome(from_date@, days@) is Some,
    ensures
        next_day_in_outcome(from_date@, days@) == Some(text_result(r)),
{
    if days.len() == 0 {
        return Err(CadenceError::NoWeekdays);
    }
    let mut date: String = string_of(&chars_of(from_date));
    let mut i: usize = 0;
    while i < 7
        invariant
            i <= 7,
            days@.len() > 0,
            next_day_in_outcome(from_date@, days@) == scan_outcome(date@, days@, (7 - i) as nat),
            scan_outcome(date@, days@, (7 - i) as nat) is Some,
        decreases 7 - i,
    {
        let wd = match weekday_of(date.as_str()) {
            Ok(w) => w,
            Err(e) => { return Err(e); },
        };
        if contains_day(days, wd) {
            return Ok(date);
        }
        date = match add_days(date.as_str(), 1) {
            Ok(t) => t,
            Err(e) => { return Err(e); },
        };
        i += 1;
    }
    Err(CadenceError::NoMatchWithinWeek)
}

/// Finds the next date strictly after `from_date` that is one of the given weekdays.
pub fn next_day_after(from_date: &str, days: &[Weekday]) -> (r: Result<String, CadenceError>)
    requires
        next_day_after_outcome(from_date@, days@) is Some,
    ensures
        next_day_after_outcome(from_date@, days@) == Some(text_result(r)),
{
    let tomorrow = match add_days(from_date, 1) {
        Ok(t) => t,
        Err(e) => { return Err(e); },
    };
    next_day_in(tomorrow.as_str(), days)
}

/// The publication schedule: which weekdays run `session`, `bind` and `digest`.
#[derive(Debug, Clone)]
pub struct Cadence {
    pub session_days: Vec<Weekday>,
    pub bind_day: Weekday,
    pub games_enabled: bool,
    pub digest_day: Weekday,
}

/// The weekdays Monday to Friday, in order.
pub open spec fn weekdays_mon_to_fri() -> Seq<Weekday> {
    seq![Weekday::Mon, Weekday::Tue, Weekday::Wed, Weekday::Thu, Weekday::Fri]
}

impl Cadence {
    /// The cadence holds the default schedule: sessions Monday to Friday,
    /// binding on Sunday, games on, digest on Monday.
    pub open spec fn is_default(&self) -> bool {
        &&& self.session_days@ == weekdays_mon_to_fri()
        &&& self.bind_day == Weekday::Sun
        &&& self.games_enabled
        &&& self.digest_day == Weekday::Mon
    }
}

impl Default for Cadence {
    fn default() -> (c: Self)
        ensures
            c.is_default(),
    {
        Cadence {
            session_days: vec![
                Weekday::Mon,
                Weekday::Tue,
                Weekday::Wed,
                Weekday::Thu,
                Weekday::Fri,
            ],
            bind_day: Weekday::Sun,
            games_enabled: true,
            digest_day: Weekday::Mon,
        }
    }
}

impl Cadence {
    /// True if `date` (YYYY-MM-DD) is a session day.
    pub fn is_session_day(&self, date: &str) -> (r: bool)
        requires
            weekday_outcome(date@) is Some,
        ensures
            r == match weekday_outcome(date@) {
                Some(Ok(wd)) => self.session_days@.contains(wd),
                _ => false,
            },
    {
        match weekday_of(date) {
            Ok(wd) => contains_day(self.session_days.as_slice(), wd),
            Err(_) => false,
        }
    }

    /// True if `date` is the bind day.
    pub fn is_bind_day(&self, date: &str) -> (r: bool)
        requires
            weekday_outcome(date@) is Some,
        ensures
            r == (weekday_outcome(date@) == Some(Ok::<Weekday, CadenceError>(self.bind_day))),
    {
        match weekday_of(date) {
            Ok(wd) => wd == self.bind_day,
            Err(_) => false,
        }
    }

    /// True if `date` is the digest day.
    pub fn is_digest_day(&self, date: &str) -> (r: bool)
        requires
            weekday_outcome(date@) is Some,
        ensures
            r == (weekday_outcome(date@) == Some(Ok::<Weekday, CadenceError>(self.digest_day))),
    {
        match weekday_of(date) {
            Ok(wd) => wd == self.digest_day,
            Err(_) => false,
        }
    }

    /// Next session day on or after `from_date`.
    pub fn next_session(&self, from_date: &str) -> (r: Result<String, CadenceError>)
        requires
            next_day_in_outcome(from_date@, self.session_days@) is Some,
        ensures
            next_day_in_outcome(from_date@, self.session_days@) == Some(text_result(r)),
    {
        next_day_in(from_date, self.session_days.as_slice())
    }

    /// Next bind day strictly after `from_date`.
    pub fn next_bind(&self, from_date: &str) -> (r: Result<String, CadenceError>)
        requires
            next_day_after_outcome(from_date@, seq![self.bind_day]) is Some,
        ensures
            next_day_after_outcome(from_date@, seq![self.bind_day]) == Some(text_result(r)),
    {
        let days = [self.bind_day];
        assert(days@ == seq![self.bind_day]);
        next_day_after(from_date, &days)
    }

    /// Next digest day strictly after `from_date`.
    pub fn next_digest(&self, from_date: &str) -> (r: Result<String, CadenceError>)
        requires
            next_day_after_outcome(from_date@, seq![self.digest_day]) is Some,
        ensures
            next_day_after_outcome(from_date@, seq![self.digest_day]) == Some(text_result(r)),
    {
        let days = [self.digest_day];
        assert(days@ == seq![self.digest_day]);
        next_day_after(from_date, &days)
    }
}

/// Where the cadence configuration lives: `roundtable/cadence.json` under
/// `XDG_DATA_HOME`, or under `<HOME>/.local/share` (`/tmp` without `HOME`).
pub open spec fn cadence_path_of(xdg_data_home: Option<Seq<char>>, home: Option<Seq<char>>) -> Seq<char> {
    let home_dir = match home {
        Some(h) => h,
        None => "/tmp"@,
    };
    let base = match xdg_data_home {
        Some(x) => x,
        None => home_dir + "/.local/share"@,
    };
    path_join(path_join(base, "roundtable"@), "cadence.json"@)
}

/// Default path for the cadence config, from the values of `XDG_DATA_HOME`
/// and `HOME` (`None` when unset).
pub fn default_cadence_path(xdg_data_home: Option<&str>, home: Option<&str>) -> (r: String)
    ensures
        r@ == cadence_path_of(opt_chars(xdg_data_home), opt_chars(home)),
{
    let base: String = match xdg_data_home {
        Some(x) => string_of(&chars_of(x)),
        None => {
            let mut b: Vec<char> = Vec::new();
            match home {
                Some(h) => push_str(&mut b, h),
                None => push_str(&mut b, "/tmp"),
            }
            push_str(&mut b, "/.local/share");
            string_of(&b)
        },
    };
    let dir = join_path(base.as_str(), "roundtable");
    join_path(dir.as_str(), "cadence.json")
}

/// The cadence to use: the stored one if a stored configuration exists (or the
/// error reading it), else the default schedule.
pub fn load_or_default<E>(stored: Option<Result<Cadence, E>>) -> (r: Result<Cadence, E>)
    ensures
        match stored {
            None => r matches Ok(c) && c.is_default(),
            Some(x) => r == x,
        },
{
    match stored {
        Some(x) => x,
        None => Ok(Cadence::default()),
    }
}

/// The text the search of `next_day_in` holds after `k` steps from `s`,
/// the text of calendar date `(y, m, d)`.
pub open spec fn text_after_steps(s: Seq<char>, y: int, m: int, d: int, k: nat) -> Seq<char> {
    if k == 0 {
        s
    } else {
        let (ky, km, kd) = days_later(y, m, d, k);
        ymd_text(ky, km, kd)
    }
}

/// `k` is the fewest days from day number `j` to a day whose weekday is in `days`.
pub open spec fn is_first_match(j: int, days: Seq<Weekday>, k: int) -> bool {
    &&& 0 <= k < 7
    &&& days.contains(Weekday::spec_from_index(j + k))
    &&& forall|i: int| 0 <= i < k ==> !days.contains(#[trigger] Weekday::spec_from_index(j + i))
}

proof fn lemma_scan(s: Seq<char>, days: Seq<Weekday>, fuel: nat, y: int, m: int, d: int, k: int)
    requires
        ymd_parse(s) == Ok::<(int, int, int), CadenceError>((y, m, d)),
        y >= 0,
        is_calendar_date(y, m, d),
        k < fuel,
        is_first_match(jdn_of(y, m, d), days, k),
        scan_outcome(s, days, fuel) is Some,
    ensures
        scan_outcome(s, days, fuel) == Some(Ok::<Seq<char>, CadenceError>(text_after_steps(s, y, m, d, k as nat))),
    decreases fuel,
{
    let j = jdn_of(y, m, d);
    assert(weekday_outcome(s) == Some(Ok::<Weekday, CadenceError>(Weekday::spec_from_index(j))));
    if k == 0 {
        assert(j + 0 == j);
        assert(days.contains(Weekday::spec_from_index(j)));
    } else {
        assert(j + 0 == j);
        assert(!days.contains(Weekday::spec_from_index(j)));
        lemma_add_one_day(s, y, m, d);
        let (ny, nm, nd) = next_calendar_day(y, m, d);
        lemma_jdn_next_day(y, m, d);
        let t = ymd_text(ny, nm, nd);
        lemma_ymd_text_parse(ny, nm, nd);
        assert forall|i: int| 0 <= i < k - 1 implies !days.contains(#[trigger] Weekday::spec_from_index(jdn_of(ny, nm, nd) + i)) by {
            assert(jdn_of(ny, nm, nd) + i == j + (i + 1));
            assert(!days.contains(Weekday::spec_from_index(j + (i + 1))));
        }
        assert(jdn_of(ny, nm, nd) + (k - 1) == j + k);
        lemma_scan(t, days, (fuel - 1) as nat, ny, nm, nd, k - 1);
        assert(scan_outcome(s, days, fuel) == scan_outcome(t, days, (fuel - 1) as nat));
        assert(days_later(y, m, d, k as nat) == days_later(ny, nm, nd, (k - 1) as nat));
        if k == 1 {
            assert(days_later(ny, nm, nd, 0) == (ny, nm, nd));
        }
        assert(text_after_steps(t, ny, nm, nd, (k - 1) as nat) == text_after_steps(s, y, m, d, k as nat));
    }
}

proof fn lemma_first_match_from(j: int, days: Seq<Weekday>, i: int, k0: int) -> (k: int)
    requires
        0 <= i <= k0 < 7,
        days.contains(Weekday::spec_from_index(j + k0)),
        forall|t: int| 0 <= t < i ==> !days.contains(#[trigger] Weekday::spec_from_index(j + t)),
    ensures
        is_first_match(j, days, k),
    decreases k0 - i,
{
    if days.contains(Weekday::spec_from_index(j + i)) {
        i
    } else {
        lemma_first_match_from(j, days, i + 1, k0)
    }
}

/// Some weekday of any seven consecutive days belongs to a nonempty set of weekdays.
proof fn lemma_first_match_exists(j: int, days: Seq<Weekday>) -> (k: int)
    requires
        days.len() > 0,
    ensures
        is_first_match(j, days, k),
{
    let w = days[0];
    let k0 = (w.spec_index() - j) % 7;
    assert(Weekday::spec_from_index(j + k0) == w);
    assert(days.contains(Weekday::spec_from_index(j + k0)));
    lemma_first_match_from(j, days, 0, k0)
}

/// From a calendar date of year 0 or later, `next_day_in` finds the first day,
/// counting `from_date` itself, whose weekday is in `days`: it lies at most six
/// days later and is never reported missing.
pub proof fn lemma_next_day_in_finds_first(from_date: Seq<char>, days: Seq<Weekday>, y: int, m: int, d: int)
    requires
        ymd_parse(from_date) == Ok::<(int, int, int), CadenceError>((y, m, d)),
        y >= 0,
        is_calendar_date(y, m, d),
        days.len() > 0,
        next_day_in_outcome(from_date, days) is Some,
    ensures
        exists|k: int| #![trigger is_first_match(jdn_of(y, m, d), days, k)]
            is_first_match(jdn_of(y, m, d), days, k)
            && next_day_in_outcome(from_date, days) == Some(Ok::<Seq<char>, CadenceError>(text_after_steps(from_date, y, m, d, k as nat)))
            && ({
                let (ky, km, kd) = days_later(y, m, d, k as nat);
                is_calendar_date(ky, km, kd) && jdn_of(ky, km, kd) == jdn_of(y, m, d) + k
            }),
{
    let k = lemma_first_match_exists(jdn_of(y, m, d), days);
    lemma_scan(from_date, days, 7, y, m, d, k);
    lemma_days_later(y, m, d, k as nat);
}

/// Each weekday's index leads back to it, and every index names the day at its
/// remainder modulo 7.
pub proof fn lemma_weekday_index_roundtrip(w: Weekday, i: int)
    ensures
        Weekday::spec_from_index(w.spec_index() as int) == w,
        Weekday::spec_from_index(i).spec_index() == i % 7,
        Weekday::spec_from_index(i + 7) == Weekday::spec_from_index(i),
{
}

/// Parsing a weekday's three-letter name, or its lowercase full name in any
/// ASCII case, gives the weekday back.
pub proof fn lemma_parse_names(w: Weekday)
    ensures
        weekday_of_name(ascii_lower(w.short_name())) == Ok::<Weekday, CadenceError>(w),
        all_ascii(w.short_name()),
{
    let t = ascii_lower(w.short_name());
    match w {
        Weekday::Mon => { assert(t =~= seq!['m', 'o', 'n']); },
        Weekday::Tue => { assert(t =~= seq!['t', 'u', 'e']); },
        Weekday::Wed => { assert(t =~= seq!['w', 'e', 'd']); },
        Weekday::Thu => { assert(t =~= seq!['t', 'h', 'u']); },
        Weekday::Fri => { assert(t =~= seq!['f', 'r', 'i']); },
        Weekday::Sat => { assert(t =~= seq!['s', 'a', 't']); },
        Weekday::Sun => { assert(t =~= seq!['s', 'u', 'n']); },
    }
}

/// The day after a calendar date (year 0 or later) falls on the next weekday.
pub proof fn lemma_next_day_next_weekday(s: Seq<char>, y: int, m: int, d: int)
    requires
        ymd_parse(s) == Ok::<(int, int, int), CadenceError>((y, m, d)),
        y >= 0,
        is_calendar_date(y, m, d),
        add_days_outcome(s, 1) is Some,
    ensures
        ({
            let (ny, nm, nd) = next_calendar_day(y, m, d);
            let t = ymd_text(ny, nm, nd);
            &&& add_days_outcome(s, 1) == Some(Ok::<Seq<char>, CadenceError>(t))
            &&& weekday_outcome(t) is Some ==> (weekday_outcome(s) matches Some(Ok(w))
                && weekday_outcome(t) == Some(Ok::<Weekday, CadenceError>(Weekday::spec_from_index(w.spec_index() + 1int))))
        }),
{
    lemma_add_one_day(s, y, m, d);
    let (ny, nm, nd) = next_calendar_day(y, m, d);
    lemma_jdn_next_day(y, m, d);
    lemma_ymd_text_parse(ny, nm, nd);
    let t = ymd_text(ny, nm, nd);
    if weekday_outcome(t) is Some {
        assert(jdn_fits(y, m, d));
    }
}

/// From a calendar date of year 0 or later, `next_day_after` finds the first
/// day strictly after it whose weekday is in `days`, at most seven days on.
pub proof fn lemma_next_day_after_finds_first(from_date: Seq<char>, days: Seq<Weekday>, y: int, m: int, d: int)
    requires
        ymd_parse(from_date) == Ok::<(int, int, int), CadenceError>((y, m, d)),
        y >= 0,
        is_calendar_date(y, m, d),
        days.len() > 0,
        next_day_after_outcome(from_date, days) is Some,
    ensures
        exists|k: int| #![trigger is_first_match(jdn_of(y, m, d) + 1, days, k)]
            is_first_match(jdn_of(y, m, d) + 1, days, k)
            && ({
                let (ky, km, kd) = days_later(y, m, d, (k + 1) as nat);
                &&& next_day_after_outcome(from_date, days) == Some(Ok::<Seq<char>, CadenceError>(ymd_text(ky, km, kd)))
                &&& is_calendar_date(ky, km, kd)
                &&& jdn_of(ky, km, kd) == jdn_of(y, m, d) + 1 + k
            }),
{
    lemma_add_one_day(from_date, y, m, d);
    let (ny, nm, nd) = next_calendar_day(y, m, d);
    lemma_jdn_next_day(y, m, d);
    lemma_ymd_text_parse(ny, nm, nd);
    let t = ymd_text(ny, nm, nd);
    lemma_next_day_in_finds_first(t, days, ny, nm, nd);
    let k = choose|k: int| #![trigger is_first_match(jdn_of(ny, nm, nd), days, k)]
        is_first_match(jdn_of(ny, nm, nd), days, k)
        && next_day_in_outcome(t, days) == Some(Ok::<Seq<char>, CadenceError>(text_after_steps(t, ny, nm, nd, k as nat)))
        && ({
            let (ky, km, kd) = days_later(ny, nm, nd, k as nat);
            is_calendar_date(ky, km, kd) && jdn_of(ky, km, kd) == jdn_of(ny, nm, nd) + k
        });
    assert(days_later(y, m, d, (k + 1) as nat) == days_later(ny, nm, nd, k as nat));
    if k == 0 {
        assert(days_later(ny, nm, nd, 0) == (ny, nm, nd));
    }
    assert(is_first_match(jdn_of(y, m, d) + 1, days, k));
}

/// `s` does not parse as a date, or parses with a year 0 or later and a day
/// number at most `bound`.
pub open spec fn text_in_range(s: Seq<char>, bound: int) -> bool {
    match ymd_parse(s) {
        Err(_) => true,
        Ok((y, m, d)) => y >= 0 && jdn_of(y, m, d) <= bound,
    }
}

/// One day on from a text in range is a text in range, one day further.
proof fn lemma_step_in_range(s: Seq<char>, bound: int)
    requires
        text_in_range(s, bound),
        bound < 500_000_000_000_000_000,
        ymd_parse(s) is Ok,
    ensures
        weekday_outcome(s) is Some,
        add_days_outcome(s, 1) matches Some(Ok(t)) && text_in_range(t, bound + 1),
{
    let (y, m, d) = ymd_parse(s)->Ok_0;
    crate::calendar::lemma_parse_ranges(s);
    crate::calendar::lemma_jdn_fits_below(y, m, d);
    let j = jdn_of(y, m, d);
    crate::calendar::lemma_decode_fits(j + 1);
    let (ny, nm, nd) = crate::calendar::ymd_of_jdn(j + 1);
    crate::calendar::lemma_jdn_roundtrip(j + 1);
    crate::calendar::lemma_decode_year_fits(j + 1);
    if ny >= 0 {
        lemma_ymd_text_parse(ny, nm, nd);
    } else {
        crate::calendar::lemma_negative_year_text(ny, nm, nd);
    }
}

proof fn lemma_scan_defined(s: Seq<char>, days: Seq<Weekday>, fuel: nat, bound: int)
    requires
        text_in_range(s, bound),
        bound + fuel < 500_000_000_000_000_000,
    ensures
        scan_outcome(s, days, fuel) is Some,
    decreases fuel,
{
    if fuel > 0 {
        if ymd_parse(s) is Ok {
            lemma_step_in_range(s, bound);
            if let Some(Ok(t)) = add_days_outcome(s, 1) {
                lemma_scan_defined(t, days, (fuel - 1) as nat, bound + 1);
            }
        }
    }
}

/// For every date whose year is at most `LARGEST_YEAR` (10^15), and any text that is no date,
/// the weekday, the next day and the searches for the next matching day are
/// computed without `i64` overflow.
pub proof fn lemma_searches_defined(s: Seq<char>, days: Seq<Weekday>)
    requires
        searchable_text(s),
    ensures
        weekday_outcome(s) is Some,
        add_days_outcome(s, 1) is Some,
        next_day_in_outcome(s, days) is Some,
        next_day_after_outcome(s, days) is Some,
{
    if ymd_parse(s) is Ok {
        let (y, m, d) = ymd_parse(s)->Ok_0;
        crate::calendar::lemma_parse_ranges(s);
        crate::calendar::lemma_parsed_year_nonneg(s);
        crate::calendar::lemma_jdn_small_year(y, m, d);
        lemma_step_in_range(s, 400_000_000_000_000_000);
        if let Some(Ok(t)) = add_days_outcome(s, 1) {
            lemma_scan_defined(t, days, 7, 400_000_000_000_000_001);
        }
    }
    lemma_scan_defined(s, days, 7, 400_000_000_000_000_000);
}

/// The day number of a date text (0 for a text that is no date).
pub open spec fn day_number(s: Seq<char>) -> int {
    match ymd_parse(s) {
        Ok((y, m, d)) => jdn_of(y, m, d),
        Err(_) => 0,
    }
}

/// Moving a date by `n` days moves its weekday by `n` modulo 7, wherever the
/// moved date is a date again (year 0 or later) with a day number from 0 to
/// 4 * 10^17 (about year 10^15).
pub proof fn lemma_weekday_shift(s: Seq<char>, n: int)
    requires
        ymd_parse(s) is Ok,
        add_days_outcome(s, n) matches Some(Ok(t)) && ymd_parse(t) is Ok,
        0 <= day_number(s) + n <= 400_000_000_000_000_000,
    ensures
        ({
            let t = add_days_outcome(s, n)->Some_0->Ok_0;
            let w = weekday_outcome(s)->Some_0->Ok_0;
            &&& weekday_outcome(s) matches Some(Ok(_))
            &&& day_number(t) == day_number(s) + n
            &&& weekday_outcome(t) == Some(Ok::<Weekday, CadenceError>(Weekday::spec_from_index(w.spec_index() + n)))
            &&& Weekday::spec_from_index(w.spec_index() + n).spec_index() == (w.spec_index() + n) % 7
        }),
{
    let (y, m, d) = ymd_parse(s)->Ok_0;
    let j = jdn_of(y, m, d);
    let big_j = j + n;
    let (ny, nm, nd) = crate::calendar::ymd_of_jdn(big_j);
    let t = ymd_text(ny, nm, nd);
    crate::calendar::lemma_jdn_roundtrip(big_j);
    crate::calendar::lemma_decode_year_fits(big_j);
    if ny < 0 {
        crate::calendar::lemma_negative_year_text(ny, nm, nd);
    }
    lemma_ymd_text_parse(ny, nm, nd);
    crate::calendar::lemma_jdn_fits_below(ny, nm, nd);
    assert(weekday_outcome(t) == Some(Ok::<Weekday, CadenceError>(Weekday::spec_from_index(big_j))));
    let w = Weekday::spec_from_index(j);
    assert(w.spec_index() == j % 7);
    vstd::arithmetic::div_mod::lemma_add_mod_noop_right(n, j, 7);
    assert(Weekday::spec_from_index(w.spec_index() + n) == Weekday::spec_from_index(big_j));
}

/// `i` days on from a calendar date in range: the date `add_days` gives, its
/// day number and its weekday.
proof fn lemma_days_on(from: Seq<char>, y: int, m: int, d: int, i: nat)
    requires
        ymd_parse(from) == Ok::<(int, int, int), CadenceError>((y, m, d)),
        is_calendar_date(y, m, d),
        y <= LARGEST_YEAR,
        i <= 7,
    ensures
        ({
            let (ky, km, kd) = days_later(y, m, d, i);
            let u = ymd_text(ky, km, kd);
            &&& is_calendar_date(ky, km, kd)
            &&& add_days_outcome(from, i as int) == Some(Ok::<Seq<char>, CadenceError>(u))
            &&& ymd_parse(u) == Ok::<(int, int, int), CadenceError>((ky, km, kd))
            &&& day_number(u) == jdn_of(y, m, d) + i
            &&& weekday_outcome(u) == Some(Ok::<Weekday, CadenceError>(Weekday::spec_from_index(jdn_of(y, m, d) + i)))
        }),
{
    crate::calendar::lemma_parsed_year_nonneg(from);
    crate::calendar::lemma_parse_ranges(from);
    crate::calendar::lemma_jdn_small_year(y, m, d);
    let j = jdn_of(y, m, d);
    lemma_days_later(y, m, d, i);
    let (ky, km, kd) = days_later(y, m, d, i);
    crate::calendar::lemma_jdn_decode_encode(ky, km, kd);
    crate::calendar::lemma_decode_fits(j + i);
    crate::calendar::lemma_decode_year_fits(j + i);
    lemma_ymd_text_parse(ky, km, kd);
    crate::calendar::lemma_jdn_fits_below(ky, km, kd);
}

/// `next_day_in` in terms of dates: from a calendar date of year at most
/// `LARGEST_YEAR`, it gives the first date on or after it whose weekday is in
/// `days`: that date itself, or a later one written "YYYY-MM-DD", at most six
/// days on, every date before it having a weekday outside `days`.
pub proof fn lemma_next_day_in_dates(from: Seq<char>, days: Seq<Weekday>)
    requires
        ymd_parse(from) matches Ok((y, m, d)) && is_calendar_date(y, m, d),
        searchable_text(from),
        days.len() > 0,
    ensures
        next_day_in_outcome(from, days) matches Some(Ok(t)) && {
            let k = day_number(t) - day_number(from);
            &&& 0 <= k <= 6
            &&& weekday_outcome(t) matches Some(Ok(w)) && days.contains(w)
            &&& k == 0 ==> t == from
            &&& k > 0 ==> (ymd_parse(t) matches Ok((ty, tm, td)) && is_calendar_date(ty, tm, td) && t == ymd_text(ty, tm, td))
            &&& forall|i: int| #![trigger add_days_outcome(from, i)] 0 <= i < k ==>
                (add_days_outcome(from, i) matches Some(Ok(u)) && weekday_outcome(u) matches Some(Ok(wu)) && !days.contains(wu))
        },
{
    let (y, m, d) = ymd_parse(from)->Ok_0;
    let j = jdn_of(y, m, d);
    crate::calendar::lemma_parsed_year_nonneg(from);
    lemma_searches_defined(from, days);
    lemma_next_day_in_finds_first(from, days, y, m, d);
    let k = choose|k: int| #![trigger is_first_match(jdn_of(y, m, d), days, k)]
        is_first_match(jdn_of(y, m, d), days, k)
        && next_day_in_outcome(from, days) == Some(Ok::<Seq<char>, CadenceError>(text_after_steps(from, y, m, d, k as nat)));
    let t = text_after_steps(from, y, m, d, k as nat);
    lemma_days_on(from, y, m, d, k as nat);
    lemma_days_on(from, y, m, d, 0);
    assert(j + 0 == j);
    assert forall|i: int| #![trigger add_days_outcome(from, i)] 0 <= i < k implies
        (add_days_outcome(from, i) matches Some(Ok(u)) && weekday_outcome(u) matches Some(Ok(wu)) && !days.contains(wu)) by {
        lemma_days_on(from, y, m, d, i as nat);
        assert(!days.contains(Weekday::spec_from_index(j + i)));
    }
}

/// `next_day_after` in terms of dates: from a calendar date of year below
/// `LARGEST_YEAR`, it gives the first later date whose weekday is in `days`,
/// written "YYYY-MM-DD", one to seven days on, every date strictly between
/// having a weekday outside `days`. For a single weekday that `from` already
/// falls on, that is the date a week later.
pub proof fn lemma_next_day_after_dates(from: Seq<char>, days: Seq<Weekday>)
    requires
        ymd_parse(from) matches Ok((y, m, d)) && is_calendar_date(y, m, d) && y < LARGEST_YEAR,
        days.len() > 0,
    ensures
        next_day_after_outcome(from, days) matches Some(Ok(t)) && {
            let k = day_number(t) - day_number(from);
            &&& 1 <= k <= 7
            &&& weekday_outcome(t) matches Some(Ok(w)) && days.contains(w)
            &&& ymd_parse(t) matches Ok((ty, tm, td)) && is_calendar_date(ty, tm, td) && t == ymd_text(ty, tm, td)
            &&& forall|i: int| #![trigger add_days_outcome(from, i)] 1 <= i < k ==>
                (add_days_outcome(from, i) matches Some(Ok(u)) && weekday_outcome(u) matches Some(Ok(wu)) && !days.contains(wu))
            &&& days.len() == 1 && weekday_outcome(from) == Some(Ok::<Weekday, CadenceError>(days[0])) ==> k == 7
        },
{
    let (y, m, d) = ymd_parse(from)->Ok_0;
    let j = jdn_of(y, m, d);
    crate::calendar::lemma_parsed_year_nonneg(from);
    lemma_searches_defined(from, days);
    lemma_next_day_after_finds_first(from, days, y, m, d);
    let k = choose|k: int| #![trigger is_first_match(jdn_of(y, m, d) + 1, days, k)]
        is_first_match(jdn_of(y, m, d) + 1, days, k)
        && ({
            let (ky, km, kd) = days_later(y, m, d, (k + 1) as nat);
            next_day_after_outcome(from, days) == Some(Ok::<Seq<char>, CadenceError>(ymd_text(ky, km, kd)))
        });
    lemma_days_on(from, y, m, d, (k + 1) as nat);
    lemma_days_on(from, y, m, d, 0);
    assert(j + 0 == j);
    assert(j + 1 + k == j + (k + 1));
    assert forall|i: int| #![trigger add_days_outcome(from, i)] 1 <= i < k + 1 implies
        (add_days_outcome(from, i) matches Some(Ok(u)) && weekday_outcome(u) matches Some(Ok(wu)) && !days.contains(wu)) by {
        lemma_days_on(from, y, m, d, i as nat);
        assert(j + 1 + (i - 1) == j + i);
        assert(!days.contains(Weekday::spec_from_index(j + 1 + (i - 1))));
    }
    if days.len() == 1 && weekday_outcome(from) == Some(Ok::<Weekday, CadenceError>(days[0])) && k + 1 < 7 {
        assert(days.contains(Weekday::spec_from_index(j + 1 + k)));
        assert(Weekday::spec_from_index(j + 1 + k) == days[0]);
        assert(Weekday::spec_from_index(j) == days[0]);
        assert(Weekday::spec_from_index(j).spec_index() == j % 7);
        assert(Weekday::spec_from_index(j + 1 + k).spec_index() == (j + 1 + k) % 7);
        assert(false);
    }
}

/// The next session day on or after a calendar date (year at most
/// `LARGEST_YEAR`) is a session day at most six days on, no earlier date being one.
pub proof fn lemma_next_session_dates(c: Cadence, from: Seq<char>)
    requires
        ymd_parse(from) matches Ok((y, m, d)) && is_calendar_date(y, m, d),
        searchable_text(from),
        c.session_days@.len() > 0,
    ensures
        next_day_in_outcome(from, c.session_days@) matches Some(Ok(t)) && {
            let k = day_number(t) - day_number(from);
            &&& 0 <= k <= 6
            &&& weekday_outcome(t) matches Some(Ok(w)) && c.session_days@.contains(w)
            &&& forall|i: int| #![trigger add_days_outcome(from, i)] 0 <= i < k ==>
                (add_days_outcome(from, i) matches Some(Ok(u)) && weekday_outcome(u) matches Some(Ok(wu))
                    && !c.session_days@.contains(wu))
        },
{
    lemma_next_day_in_dates(from, c.session_days@);
}

/// The next bind day after a calendar date (year below `LARGEST_YEAR`) is one
/// to seven days on and falls on the bind day; from a bind day it is a week on.
pub proof fn lemma_next_bind_dates(c: Cadence, from: Seq<char>)
    requires
        ymd_parse(from) matches Ok((y, m, d)) && is_calendar_date(y, m, d) && y < LARGEST_YEAR,
    ensures
        next_day_after_outcome(from, seq![c.bind_day]) matches Some(Ok(t)) && {
            let k = day_number(t) - day_number(from);
            &&& 1 <= k <= 7
            &&& weekday_outcome(t) == Some(Ok::<Weekday, CadenceError>(c.bind_day))
            &&& ymd_parse(t) matches Ok((ty, tm, td)) && is_calendar_date(ty, tm, td) && t == ymd_text(ty, tm, td)
            &&& weekday_outcome(from) == Some(Ok::<Weekday, CadenceError>(c.bind_day)) ==> k == 7
        },
{
    lemma_next_day_after_dates(from, seq![c.bind_day]);
}

/// The next digest day after a calendar date (year below `LARGEST_YEAR`) is
/// one to seven days on and falls on the digest day; from a digest day it is a
/// week on.
pub proof fn lemma_next_digest_dates(c: Cadence, from: Seq<char>)
    requires
        ymd_parse(from) matches Ok((y, m, d)) && is_calendar_date(y, m, d) && y < LARGEST_YEAR,
    ensures
        next_day_after_outcome(from, seq![c.digest_day]) matches Some(Ok(t)) && {
            let k = day_number(t) - day_number(from);
            &&& 1 <= k <= 7
            &&& weekday_outcome(t) == Some(Ok::<Weekday, CadenceError>(c.digest_day))
            &&& ymd_parse(t) matches Ok((ty, tm, td)) && is_calendar_date(ty, tm, td) && t == ymd_text(ty, tm, td)
            &&& weekday_outcome(from) == Some(Ok::<Weekday, CadenceError>(c.digest_day)) ==> k == 7
        },
{
    lemma_next_day_after_dates(from, seq![c.digest_day]);
}

/// The largest year the date searches take on.
pub const LARGEST_YEAR: i64 = 1_000_000_000_000_000;

/// `s` does not parse as a date, or parses with a year of at most `LARGEST_YEAR`.
pub open spec fn searchable_text(s: Seq<char>) -> bool {
    ymd_parse(s) matches Ok((y, m, d)) ==> y <= LARGEST_YEAR
}

/// Whether `date` is in the range the date searches take: then the weekday,
/// the next day and every search from it are computed without overflow.
pub fn searchable(date: &str) -> (r: bool)
    ensures
        r == searchable_text(date@),
        r ==> weekday_outcome(date@) is Some && add_days_outcome(date@, 1) is Some,
        r ==> forall|days: Seq<Weekday>| #[trigger] next_day_in_outcome(date@, days) is Some
            && next_day_after_outcome(date@, days) is Some,
{
    let r = match parse_ymd(date) {
        Ok((y, _m, _d)) => y <= LARGEST_YEAR,
        Err(_) => true,
    };
    proof {
        if r {
            assert forall|days: Seq<Weekday>| #[trigger] next_day_in_outcome(date@, days) is Some
                && next_day_after_outcome(date@, days) is Some by {
                lemma_searches_defined(date@, days);
            }
            lemma_searches_defined(date@, Seq::empty());
        }
    }
    r
}

} // verus!
