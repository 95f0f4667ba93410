//! The access log.
//!
//! Two outputs with different audiences: structured JSON for operators and log pipelines, and the
//! `cachelog` line format, so that dashboards which parse that keep working.
use crate::text;
use vstd::prelude::*;
use vstd::string::*;

verus! {

/// A day of the Gregorian calendar.
#[derive(Debug, Clone, Copy, PartialEq, Eq, Structural)]
pub struct Date {
    pub year: u64,
    /// From 1 to 12.
    pub month: u64,
    /// From 1.
    pub day: u64,
}

pub open spec fn is_leap(year: int) -> bool {
    year % 4 == 0 && (year % 100 != 0 || year % 400 == 0)
}

pub open spec fn year_length(year: int) -> int {
    if is_leap(year) {
        366
    } else {
        365
    }
}

pub open spec fn month_length(year: int, month: int) -> int {
    if month == 2 {
        if is_leap(year) {
            29
        } else {
            28
        }
    } else if month == 4 || month == 6 || month == 9 || month == 11 {
        30
    } else {
        31
    }
}

/// How many days lie between the start of 1970 and the start of a year.
pub open spec fn days_until_year(year: int) -> int
    decreases year - 1970,
{
    if year <= 1970 {
        0
    } else {
        days_until_year(year - 1) + year_length(year - 1)
    }
}

/// How many days lie between the start of a year and the start of one of its months.
pub open spec fn days_until_month(year: int, month: int) -> int
    decreases month,
{
    if month <= 1 {
        0
    } else {
        days_until_month(year, month - 1) + month_length(year, month - 1)
    }
}

impl Date {
    /// A day that exists, from 1970 on.
    pub open spec fn exists_in_calendar(self) -> bool {
        &&& self.year >= 1970
        &&& 1 <= self.month <= 12
        &&& 1 <= self.day <= month_length(self.year as int, self.month as int)
    }

    /// How many days it comes after 1 January 1970.
    pub open spec fn number(self) -> int {
        days_until_year(self.year as int) + days_until_month(self.year as int, self.month as int)
            + self.day - 1
    }
}

spec fn leap_days(year: int) -> int {
    year / 4 - year / 100 + year / 400
}

proof fn lemma_leap_step(year: int)
    ensures
        leap_days(year) - leap_days(year - 1) == (if is_leap(year) {
            1int
        } else {
            0
        }),
{
}

proof fn lemma_days_until_year(year: int)
    requires
        year >= 1970,
    ensures
        days_until_year(year) == 365 * (year - 1970) + leap_days(year - 1) - 477,
    decreases year,
{
    if year > 1970 {
        lemma_days_until_year(year - 1);
        lemma_leap_step(year - 1);
    }
}

/// The year of a 400-year cycle that starts in March, and the day of that year.
proof fn lemma_year_of_cycle(doe: int, yoe: int, doy: int)
    requires
        0 <= doe < 146097,
        yoe == (doe - doe / 1460 + doe / 36524 - doe / 146096) / 365,
        doy == doe - (365 * yoe + yoe / 4 - yoe / 100),
    ensures
        0 <= yoe < 400,
        0 <= doy <= 365,
        doy == 365 ==> is_leap(yoe + 1),
{
}

/// The month of a year that starts in March, and the day of that month.
proof fn lemma_month_of_year(doy: int, mp: int, d: int)
    requires
        0 <= doy <= 365,
        mp == (5 * doy + 2) / 153,
        d == doy - (153 * mp + 2) / 5 + 1,
    ensures
        0 <= mp <= 11,
        1 <= d <= 31,
        (mp == 1 || mp == 3 || mp == 6 || mp == 8) ==> d <= 30,
        mp == 11 ==> d <= 29 && (doy < 365 ==> d <= 28),
        doy < 306 <==> mp < 10,
{
}

/// The day that comes so many days after 1 January 1970.
pub fn civil_date(days: u64) -> (out: Date)
    requires
        days <= u64::MAX / 86_400,
    ensures
        out.exists_in_calendar(),
        out.number() == days,
{
    // Years are counted from March, so that a leap day is the last day of its year, in cycles of
    // 400 years.
    let z: u64 = days + 719_468;
    let era: u64 = z / 146_097;
    let doe: u64 = z % 146_097;
    let yoe: u64 = (doe - doe / 1460 + doe / 36_524 - doe / 146_096) / 365;
    proof {
        lemma_year_of_cycle(
            doe as int,
            yoe as int,
            doe - (365 * yoe + yoe as int / 4 - yoe as int / 100),
        );
    }
    let doy: u64 = doe - (365 * yoe + yoe / 4 - yoe / 100);
    let mp: u64 = (5 * doy + 2) / 153;
    proof {
        lemma_month_of_year(doy as int, mp as int, doy - (153 * mp + 2) as int / 5 + 1);
    }
    let day: u64 = doy - (153 * mp + 2) / 5 + 1;
    let month: u64 = if mp < 10 {
        mp + 3
    } else {
        mp - 9
    };
    let march_year: u64 = yoe + era * 400;
    let year: u64 = if month <= 2 {
        march_year + 1
    } else {
        march_year
    };
    proof {
        lemma_cycle(era as int, yoe as int);
        lemma_march(march_year as int, doy as int, days as int);
        if month > 2 {
            lemma_days_until_year(year as int);
            lemma_leap_step(year as int);
            reveal_with_fuel(days_until_month, 13);
        } else {
            lemma_days_until_year(year as int);
            reveal_with_fuel(days_until_month, 13);
        }
    }
    Date { year, month, day }
}

proof fn lemma_cycle(era: int, yoe: int)
    requires
        0 <= yoe < 400,
        0 <= era,
    ensures
        365 * (400 * era + yoe) + leap_days(400 * era + yoe) == 146097 * era + 365 * yoe + yoe / 4
            - yoe / 100,
        is_leap(400 * era + yoe + 1) == is_leap(yoe + 1),
{
}

/// The first day that is counted lies in a year that starts in March 1969.
proof fn lemma_march(year: int, doy: int, days: int)
    requires
        0 <= doy <= 365,
        days >= 0,
        365 * year + leap_days(year) + doy == days + 719468,
    ensures
        year >= 1969,
        year == 1969 ==> doy >= 306,
{
}

proof fn lemma_years_grow(a: int, b: int)
    requires
        1970 <= a <= b,
    ensures
        days_until_year(a) <= days_until_year(b),
    decreases b - a,
{
    if a < b {
        lemma_years_grow(a, b - 1);
    }
}

proof fn lemma_within_year(date: Date)
    requires
        date.exists_in_calendar(),
    ensures
        days_until_year(date.year as int) <= date.number() < days_until_year(date.year + 1),
{
    reveal_with_fuel(days_until_month, 13);
}

/// No two days have the same number.
pub proof fn days_are_numbered_once(a: Date, b: Date)
    requires
        a.exists_in_calendar(),
        b.exists_in_calendar(),
        a.number() == b.number(),
    ensures
        a == b,
{
    lemma_within_year(a);
    lemma_within_year(b);
    if a.year < b.year {
        lemma_years_grow(a.year + 1, b.year as int);
    } else if b.year < a.year {
        lemma_years_grow(b.year + 1, a.year as int);
    }
    reveal_with_fuel(days_until_month, 13);
}

pub open spec fn month_name(month: int) -> Seq<char> {
    if month == 1 {
        "Jan"@
    } else if month == 2 {
        "Feb"@
    } else if month == 3 {
        "Mar"@
    } else if month == 4 {
        "Apr"@
    } else if month == 5 {
        "May"@
    } else if month == 6 {
        "Jun"@
    } else if month == 7 {
        "Jul"@
    } else if month == 8 {
        "Aug"@
    } else if month == 9 {
        "Sep"@
    } else if month == 10 {
        "Oct"@
    } else if month == 11 {
        "Nov"@
    } else {
        "Dec"@
    }
}

fn show_month(month: u64) -> (out: &'static str)
    ensures
        out@ == month_name(month as int),
{
    match month {
        1 => "Jan",
        2 => "Feb",
        3 => "Mar",
        4 => "Apr",
        5 => "May",
        6 => "Jun",
        7 => "Jul",
        8 => "Aug",
        9 => "Sep",
        10 => "Oct",
        11 => "Nov",
        _ => "Dec",
    }
}

/// A moment as it stands in a log line: the day, and the time within it.
pub open spec fn stamp(date: Date, second_of_day: int) -> Seq<char> {
    text::padded(date.day as nat, 2) + "/"@ + month_name(date.month as int) + "/"@ + text::padded(
        date.year as nat,
        4,
    ) + ":"@ + text::padded((second_of_day / 3600) as nat, 2) + ":"@ + text::padded(
        (second_of_day % 3600 / 60) as nat,
        2,
    ) + ":"@ + text::padded((second_of_day % 60) as nat, 2) + " +0000"@
}

/// Whether a text is a moment, given in seconds from the start of 1970 in UTC.
pub open spec fn is_timestamp(s: Seq<char>, unix_seconds: u64) -> bool {
    exists|date: Date| #[trigger]
        date.exists_in_calendar() && date.number() == unix_seconds as int / 86_400 && s == stamp(
            date,
            unix_seconds as int % 86_400,
        )
}

/// Format a Unix timestamp the way Common Log Format expects, in UTC.
pub fn clf_timestamp(unix_seconds: u64) -> (out: String)
    ensures
        is_timestamp(out@, unix_seconds),
{
    let date = civil_date(unix_seconds / 86_400);
    let rest: u64 = unix_seconds % 86_400;
    let mut out = text::padded_string(date.day, 2);
    out.append("/");
    out.append(show_month(date.month));
    out.append("/");
    out.append(text::padded_string(date.year, 4).as_str());
    out.append(":");
    out.append(text::padded_string(rest / 3600, 2).as_str());
    out.append(":");
    out.append(text::padded_string(rest % 3600 / 60, 2).as_str());
    out.append(":");
    out.append(text::padded_string(rest % 60, 2).as_str());
    out.append(" +0000");
    out
}

/// The first second of the year 10000.
pub const FIVE_DIGIT_YEARS: u64 = 253_402_300_800;

/// Whether a text is a moment in the form `DD/Mon/YYYY:HH:MM:SS +0000`.
pub open spec fn reads_as(s: Seq<char>, date: Date, second_of_day: int) -> bool {
    &&& s.len() == 26
    &&& text::all_digits(s.subrange(0, 2)) && text::digits_value(s.subrange(0, 2)) == date.day
    &&& s[2] == '/'
    &&& s.subrange(3, 6) == month_name(date.month as int)
    &&& s[6] == '/'
    &&& text::all_digits(s.subrange(7, 11)) && text::digits_value(s.subrange(7, 11)) == date.year
    &&& s[11] == ':'
    &&& text::all_digits(s.subrange(12, 14)) && text::digits_value(s.subrange(12, 14))
        == second_of_day / 3600
    &&& s[14] == ':'
    &&& text::all_digits(s.subrange(15, 17)) && text::digits_value(s.subrange(15, 17))
        == second_of_day % 3600 / 60
    &&& s[17] == ':'
    &&& text::all_digits(s.subrange(18, 20)) && text::digits_value(s.subrange(18, 20))
        == second_of_day % 60
    &&& s.skip(20) == " +0000"@
}

proof fn lemma_month_names()
    ensures
        forall|m: int| (#[trigger] month_name(m)).len() == 3,
        forall|m: int, n: int|
            1 <= m <= 12 && 1 <= n <= 12 && #[trigger] month_name(m) == #[trigger] month_name(n)
                ==> m == n,
{
    reveal_strlit("Jan");
    reveal_strlit("Feb");
    reveal_strlit("Mar");
    reveal_strlit("Apr");
    reveal_strlit("May");
    reveal_strlit("Jun");
    reveal_strlit("Jul");
    reveal_strlit("Aug");
    reveal_strlit("Sep");
    reveal_strlit("Oct");
    reveal_strlit("Nov");
    reveal_strlit("Dec");
    assert forall|m: int, n: int|
        1 <= m <= 12 && 1 <= n <= 12 && #[trigger] month_name(m) == #[trigger] month_name(
            n,
        ) implies m == n by {
        let a = month_name(m);
        let b = month_name(n);
        assert(a[0] == b[0] && a[1] == b[1] && a[2] == b[2]);
    }
}

proof fn lemma_stamp(date: Date, second_of_day: int)
    requires
        date.exists_in_calendar(),
        date.year <= 9999,
        0 <= second_of_day < 86_400,
    ensures
        reads_as(stamp(date, second_of_day), date, second_of_day),
{
    lemma_month_names();
    reveal_strlit("/");
    reveal_strlit(":");
    reveal_strlit(" +0000");
    let day = text::padded(date.day as nat, 2);
    let month = month_name(date.month as int);
    let year = text::padded(date.year as nat, 4);
    let hour = text::padded((second_of_day / 3600) as nat, 2);
    let minute = text::padded((second_of_day % 3600 / 60) as nat, 2);
    let second = text::padded((second_of_day % 60) as nat, 2);
    text::lemma_padded_reads_back(date.day as nat, 2);
    text::lemma_padded_reads_back(date.year as nat, 4);
    text::lemma_padded_reads_back((second_of_day / 3600) as nat, 2);
    text::lemma_padded_reads_back((second_of_day % 3600 / 60) as nat, 2);
    text::lemma_padded_reads_back((second_of_day % 60) as nat, 2);
    let s = stamp(date, second_of_day);
    assert(s.len() == 26);
    assert(s.subrange(0, 2) =~= day);
    assert(s.subrange(3, 6) =~= month);
    assert(s.subrange(7, 11) =~= year);
    assert(s.subrange(12, 14) =~= hour);
    assert(s.subrange(15, 17) =~= minute);
    assert(s.subrange(18, 20) =~= second);
    assert(s.skip(20) =~= " +0000"@);
}

/// Every moment before the year 10000 is written in the form `DD/Mon/YYYY:HH:MM:SS +0000`, which
/// takes 26 characters, and what is written there is a day that exists and a time within it.
pub proof fn timestamps_have_one_form(s: Seq<char>, unix_seconds: u64)
    requires
        is_timestamp(s, unix_seconds),
        unix_seconds < FIVE_DIGIT_YEARS,
    ensures
        exists|date: Date| #[trigger]
            date.exists_in_calendar() && date.year <= 9999 && date.number() == unix_seconds as int
                / 86_400 && reads_as(s, date, unix_seconds as int % 86_400),
{
    let date = choose|date: Date| #[trigger]
        date.exists_in_calendar() && date.number() == unix_seconds as int / 86_400 && s == stamp(
            date,
            unix_seconds as int % 86_400,
        );
    lemma_days_until_year(10_000);
    lemma_within_year(date);
    if date.year >= 10_000 {
        lemma_years_grow(10_000, date.year as int);
    }
    lemma_stamp(date, unix_seconds as int % 86_400);
}

/// No two seconds before the year 10000 are written alike.
pub proof fn timestamps_tell_seconds_apart(s: Seq<char>, a: u64, b: u64)
    requires
        a < FIVE_DIGIT_YEARS,
        b < FIVE_DIGIT_YEARS,
        is_timestamp(s, a),
        is_timestamp(s, b),
    ensures
        a == b,
{
    timestamps_have_one_form(s, a);
    timestamps_have_one_form(s, b);
    lemma_month_names();
    let x = choose|date: Date| #[trigger]
        date.exists_in_calendar() && date.year <= 9999 && date.number() == a as int / 86_400
            && reads_as(s, date, a as int % 86_400);
    let y = choose|date: Date| #[trigger]
        date.exists_in_calendar() && date.year <= 9999 && date.number() == b as int / 86_400
            && reads_as(s, date, b as int % 86_400);
    assert(x.month as int == y.month as int);
    assert(x == y);
}

/// One served request.
#[derive(Debug, PartialEq, Eq)]
pub struct AccessEvent {
    pub client_ip: String,
    pub service: String,
    pub host: String,
    pub method: String,
    pub path: String,
    pub range: Option<String>,
    pub status: u16,
    pub bytes: u64,
    pub cache_status: String,
    /// How long it took to answer.
    pub upstream_nanos: u64,
    pub user_agent: Option<String>,
    /// Common Log Format timestamp, e.g. `02/Sep/2026:07:30:00 +0000`.
    ///
    /// Carried on the event, because the line format places it inside the line and dashboards
    /// parse it there.
    pub timestamp: String,
}

/// A value, or a dash where there is none.
pub open spec fn or_dash(value: Option<String>) -> Seq<char> {
    match value {
        Some(v) => v@,
        None => "-"@,
    }
}

impl AccessEvent {
    pub open spec fn line(self) -> Seq<char> {
        "["@ + self.service@ + "] "@ + self.client_ip@ + " / - - - ["@ + self.timestamp@ + "] \""@
            + self.method@ + " "@ + self.path@ + " HTTP/1.1\" "@ + text::decimal(
            self.status as nat,
        ) + " "@ + text::decimal(self.bytes as nat) + " \"-\" \""@ + or_dash(self.user_agent)
            + "\" \""@ + self.cache_status@ + "\""@
    }

    /// The `cachelog` format, field for field.
    ///
    /// The shape is given: existing dashboards parse it positionally, so a well-meaning
    /// improvement here breaks them.
    pub fn to_lancache(&self) -> (out: String)
        ensures
            out@ == self.line(),
    {
        let mut out = "[".to_owned();
        out.append(self.service.as_str());
        out.append("] ");
        out.append(self.client_ip.as_str());
        out.append(" / - - - [");
        out.append(self.timestamp.as_str());
        out.append("] \"");
        out.append(self.method.as_str());
        out.append(" ");
        out.append(self.path.as_str());
        out.append(" HTTP/1.1\" ");
        out.append(text::decimal_string(self.status as u64).as_str());
        out.append(" ");
        out.append(text::decimal_string(self.bytes).as_str());
        out.append(" \"-\" \"");
        match &self.user_agent {
            Some(agent) => out.append(agent.as_str()),
            None => out.append("-"),
        }
        out.append("\" \"");
        out.append(self.cache_status.as_str());
        out.append("\"");
        out
    }
}

/// Every fourth year is a leap year, but of the full centuries only every fourth; and the months
/// have their usual lengths.
pub proof fn the_calendar_is_the_gregorian_one(quarter: int, rest: int, century: int, month: int)
    requires
        0 < rest < 4,
        1 <= month <= 12,
    ensures
        !is_leap(4 * quarter + rest),
        is_leap(4 * quarter) <==> (forall|c: int| 4 * quarter != #[trigger] (100 * c)) || exists|c:
            int| 4 * quarter == #[trigger] (400 * c),
        is_leap(400 * century),
        !is_leap(400 * century + 100 * rest),
        month_length(4 * quarter + rest, month) == seq![
            31int,
            28int,
            31int,
            30int,
            31int,
            30int,
            31int,
            31int,
            30int,
            31int,
            30int,
            31int,
        ][month - 1],
        month != 2 ==> month_length(4 * quarter, month) == month_length(4 * quarter + rest, month),
        month_length(400 * century, 2) == 29,
        month_length(400 * century + 100 * rest, 2) == 28,
{
    let y = 4 * quarter;
    if y % 100 == 0 {
        assert(y == 100 * (y / 100));
    }
    if y % 400 == 0 {
        assert(y == 400 * (y / 400));
    }
}

/// Each day comes right behind the one before it: within a month, over the end of a month and over
/// the end of a year; and the first is 1 January 1970.
pub proof fn days_follow_one_another(date: Date)
    requires
        date.exists_in_calendar(),
        date.year < u64::MAX,
    ensures
        (Date { year: 1970, month: 1, day: 1 }).number() == 0,
        date.day < month_length(date.year as int, date.month as int) ==> (Date {
            day: (date.day + 1) as u64,
            ..date
        }).number() == date.number() + 1,
        date.day == month_length(date.year as int, date.month as int) && date.month < 12 ==> (Date {
            month: (date.month + 1) as u64,
            day: 1,
            ..date
        }).number() == date.number() + 1,
        date.day == 31 && date.month == 12 ==> (Date {
            year: (date.year + 1) as u64,
            month: 1,
            day: 1,
        }).number() == date.number() + 1,
{
    reveal_with_fuel(days_until_month, 13);
}

/// The months are named by their first three letters, in order.
pub proof fn months_are_named_in_order(month: int)
    requires
        1 <= month <= 12,
    ensures
        month_name(month) == "JanFebMarAprMayJunJulAugSepOctNovDec"@.subrange(
            3 * (month - 1),
            3 * month,
        ),
{
    reveal_strlit("JanFebMarAprMayJunJulAugSepOctNovDec");
    reveal_strlit("Jan");
    reveal_strlit("Feb");
    reveal_strlit("Mar");
    reveal_strlit("Apr");
    reveal_strlit("May");
    reveal_strlit("Jun");
    reveal_strlit("Jul");
    reveal_strlit("Aug");
    reveal_strlit("Sep");
    reveal_strlit("Oct");
    reveal_strlit("Nov");
    reveal_strlit("Dec");
    assert(month_name(month) =~= "JanFebMarAprMayJunJulAugSepOctNovDec"@.subrange(
        3 * (month - 1),
        3 * month,
    ));
}

/// The fields of a log line, as they stand between its spaces. A moment has a space of its own.
pub open spec fn fields_of(event: AccessEvent, clock: Seq<char>, zone: Seq<char>) -> Seq<Seq<char>> {
    seq![
        seq!['['] + event.service@ + seq![']'],
        event.client_ip@,
        "/"@,
        "-"@,
        "-"@,
        "-"@,
        seq!['['] + clock,
        zone + seq![']'],
        seq!['"'] + event.method@,
        event.path@,
        seq!['H', 'T', 'T', 'P', '/', '1', '.', '1', '"'],
        text::decimal(event.status as nat),
        text::decimal(event.bytes as nat),
        seq!['"', '-', '"'],
        seq!['"'] + or_dash(event.user_agent) + seq!['"'],
        seq!['"'] + event.cache_status@ + seq!['"'],
    ]
}

spec fn without_space(s: Seq<char>) -> bool {
    forall|i: int| 0 <= i < s.len() ==> #[trigger] s[i] != ' '
}

/// A log line is read by position: split at its spaces it gives each field in its place, where no
/// value has a space of its own.
#[verifier::spinoff_prover]
#[verifier::rlimit(60)]
pub proof fn log_lines_are_read_by_position(event: AccessEvent, clock: Seq<char>, zone: Seq<char>)
    requires
        event.timestamp@ == clock + seq![' '] + zone,
        forall|i: int| 0 <= i < clock.len() ==> #[trigger] clock[i] != ' ',
        forall|i: int| 0 <= i < zone.len() ==> #[trigger] zone[i] != ' ',
        forall|i: int| 0 <= i < event.service@.len() ==> #[trigger] event.service@[i] != ' ',
        forall|i: int| 0 <= i < event.client_ip@.len() ==> #[trigger] event.client_ip@[i] != ' ',
        forall|i: int| 0 <= i < event.method@.len() ==> #[trigger] event.method@[i] != ' ',
        forall|i: int| 0 <= i < event.path@.len() ==> #[trigger] event.path@[i] != ' ',
        forall|i: int|
            0 <= i < event.cache_status@.len() ==> #[trigger] event.cache_status@[i] != ' ',
        event.user_agent matches Some(agent) ==> forall|i: int|
            0 <= i < agent@.len() ==> #[trigger] agent@[i] != ' ',
    ensures
        text::parts(event.line(), ' ') == fields_of(event, clock, zone),
{
    let fields = fields_of(event, clock, zone);
    lemma_line_is_joined(event, clock, zone);
    lemma_fields_without_space(event, clock, zone);
    assert forall|i: int, j: int|
        0 <= i < fields.len() && 0 <= j < fields[i].len() implies #[trigger] fields[i][j] != ' ' by {
        assert(without_space(fields[i]));
    }
    text::joined_texts_fall_apart_again(fields, ' ');
}

#[verifier::spinoff_prover]
#[verifier::rlimit(60)]
proof fn lemma_fields_without_space(event: AccessEvent, clock: Seq<char>, zone: Seq<char>)
    requires
        without_space(clock),
        without_space(zone),
        without_space(event.service@),
        without_space(event.client_ip@),
        without_space(event.method@),
        without_space(event.path@),
        without_space(event.cache_status@),
        event.user_agent matches Some(agent) ==> without_space(agent@),
    ensures
        forall|i: int|
            0 <= i < fields_of(event, clock, zone).len() ==> without_space(
                #[trigger] fields_of(event, clock, zone)[i],
            ),
{
    reveal_strlit("-");
    reveal_strlit("/");
    text::lemma_decimal_reads_back(event.status as nat);
    text::lemma_decimal_reads_back(event.bytes as nat);
    let f = fields_of(event, clock, zone);
    lemma_no_space_between(seq!['['], event.service@, seq![']']);
    lemma_no_space_between(seq!['['], clock, Seq::empty());
    lemma_no_space_between(Seq::empty(), zone, seq![']']);
    lemma_no_space_between(seq!['"'], event.method@, Seq::empty());
    lemma_no_space_between(seq!['"'], or_dash(event.user_agent), seq!['"']);
    lemma_no_space_between(seq!['"'], event.cache_status@, seq!['"']);
    assert(f[6] =~= seq!['['] + clock + Seq::<char>::empty());
    assert(f[7] =~= Seq::<char>::empty() + zone + seq![']']);
    assert(f[8] =~= seq!['"'] + event.method@ + Seq::<char>::empty());
    assert(without_space(f[10]));
    assert forall|i: int| 0 <= i < f[11].len() implies #[trigger] f[11][i] != ' ' by {
        assert(text::is_digit(text::decimal(event.status as nat)[i]));
    }
    assert forall|i: int| 0 <= i < f[12].len() implies #[trigger] f[12][i] != ' ' by {
        assert(text::is_digit(text::decimal(event.bytes as nat)[i]));
    }
    assert(without_space(f[13]));
}

proof fn lemma_no_space_between(a: Seq<char>, b: Seq<char>, c: Seq<char>)
    requires
        without_space(a),
        without_space(b),
        without_space(c),
    ensures
        without_space(a + b + c),
{
    let s = a + b + c;
    assert forall|i: int| 0 <= i < s.len() implies #[trigger] s[i] != ' ' by {
        if i < a.len() {
            assert(a[i] != ' ');
        } else if i < a.len() + b.len() {
            assert(b[i - a.len()] != ' ');
        } else {
            assert(c[i - a.len() - b.len()] != ' ');
        }
    }
}

#[verifier::spinoff_prover]
#[verifier::rlimit(60)]
proof fn lemma_line_is_joined(event: AccessEvent, clock: Seq<char>, zone: Seq<char>)
    requires
        event.timestamp@ == clock + seq![' '] + zone,
    ensures
        event.line() == text::joined(fields_of(event, clock, zone), seq![' ']),
{
    reveal_strlit("[");
    reveal_strlit("] ");
    reveal_strlit(" / - - - [");
    reveal_strlit("] \"");
    reveal_strlit(" ");
    reveal_strlit(" HTTP/1.1\" ");
    reveal_strlit(" \"-\" \"");
    reveal_strlit("\" \"");
    reveal_strlit("\"");
    reveal_strlit("-");
    reveal_strlit("/");
    let f = fields_of(event, clock, zone);
    let sp = seq![' '];
    lemma_joined_steps(f, sp);
    assert(event.line() =~= f[0] + sp + f[1] + sp + f[2] + sp + f[3] + sp + f[4] + sp + f[5] + sp
        + f[6] + sp + f[7] + sp + f[8] + sp + f[9] + sp + f[10] + sp + f[11] + sp + f[12] + sp
        + f[13] + sp + f[14] + sp + f[15]);
}

proof fn lemma_joined_step(f: Seq<Seq<char>>, sp: Seq<char>, k: int)
    requires
        1 <= k < f.len(),
    ensures
        text::joined(f.take(k + 1), sp) == text::joined(f.take(k), sp) + sp + f[k],
{
    assert(f.take(k + 1).drop_last() =~= f.take(k));
    assert(f.take(k + 1).last() == f[k]);
}

proof fn lemma_joined_steps(f: Seq<Seq<char>>, sp: Seq<char>)
    requires
        f.len() == 16,
    ensures
        text::joined(f, sp) == f[0] + sp + f[1] + sp + f[2] + sp + f[3] + sp + f[4] + sp + f[5] + sp
            + f[6] + sp + f[7] + sp + f[8] + sp + f[9] + sp + f[10] + sp + f[11] + sp + f[12] + sp
            + f[13] + sp + f[14] + sp + f[15],
{
    assert(text::joined(f.take(1), sp) == f[0]);
    lemma_joined_step(f, sp, 1);
    lemma_joined_step(f, sp, 2);
    lemma_joined_step(f, sp, 3);
    lemma_joined_step(f, sp, 4);
    lemma_joined_step(f, sp, 5);
    lemma_joined_step(f, sp, 6);
    lemma_joined_step(f, sp, 7);
    lemma_joined_step(f, sp, 8);
    lemma_joined_step(f, sp, 9);
    lemma_joined_step(f, sp, 10);
    lemma_joined_step(f, sp, 11);
    lemma_joined_step(f, sp, 12);
    lemma_joined_step(f, sp, 13);
    lemma_joined_step(f, sp, 14);
    lemma_joined_step(f, sp, 15);
    assert(f.take(16) =~= f);
}

} // verus!
