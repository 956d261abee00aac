use vstd::prelude::*;
use vstd::string::{StrSliceExecFns, StringExecFns};
use crate::date::{
    rata_die, valid_ymd, weekday_of_day, Instant, RATA_DIE_EPOCH, RATA_DIE_MAX, SECS_PER_DAY,
    SECS_WIDE_LIMIT, days_before_year, lemma_year_length,
};
use crate::strutil::{all_digits, digits_value, parse_digits};

verus! {

/// A recurrence description: frequency (always weekly here), interval,
/// optional end instant, optional count, the weekday list, and explicit
/// exception instants.
#[derive(Debug)]
pub struct RecurrenceRule {
    pub frequency: String,
    pub interval: u32,
    pub until: Option<Instant>,
    pub count: Option<u32>,
    /// Weekday numbers, 1 = Monday .. 7 = Sunday.
    pub by_day: Option<Vec<u32>>,
    pub exception_dates: Vec<Instant>,
}

/// The mathematical value of a `RecurrenceRule`.
pub ghost struct RecurrenceRuleView {
    pub frequency: Seq<char>,
    pub interval: u32,
    pub until: Option<Instant>,
    pub count: Option<u32>,
    pub by_day: Option<Seq<u32>>,
    pub exception_dates: Seq<Instant>,
}

impl View for RecurrenceRule {
    type V = RecurrenceRuleView;

    open spec fn view(&self) -> RecurrenceRuleView {
        RecurrenceRuleView {
            frequency: self.frequency@,
            interval: self.interval,
            until: self.until,
            count: self.count,
            by_day: match self.by_day {
                Some(v) => Some(v@),
                None => None,
            },
            exception_dates: self.exception_dates@,
        }
    }
}

/// A course or exam occurrence record.
#[derive(Debug)]
pub struct Course {
    pub name: String,
    pub code: Option<String>,
    pub teacher: Option<String>,
    pub location: Option<String>,
    /// Start of the first occurrence.
    pub start_time: Instant,
    /// End of the first occurrence.
    pub end_time: Instant,
    pub description: Option<String>,
    pub course_type: Option<String>,
    pub recurrence: Option<RecurrenceRule>,
    /// Week numbers of the occurrences, 1-based, ascending.
    pub weeks: Option<Vec<u32>>,
    /// Weekday of the occurrences, 1 = Monday .. 7 = Sunday.
    pub weekday: Option<u32>,
    /// Weeks suppressed because their occurrence fell on a rest day.
    pub off_weeks: Option<Vec<u32>>,
    /// Free-form remark appended by the holiday reconciler.
    pub note: Option<String>,
    /// Raw week text, for display.
    pub raw_week: Option<String>,
    /// Current week number, for display.
    pub current_week: Option<u32>,
    pub exam_type: Option<String>,
    pub seat: Option<String>,
    pub status: Option<String>,
    /// Exam week text.
    pub week: Option<String>,
}

/// The mathematical value of a `Course`.
pub ghost struct CourseView {
    pub name: Seq<char>,
    pub code: Option<Seq<char>>,
    pub teacher: Option<Seq<char>>,
    pub location: Option<Seq<char>>,
    pub start_time: Instant,
    pub end_time: Instant,
    pub description: Option<Seq<char>>,
    pub course_type: Option<Seq<char>>,
    pub recurrence: Option<RecurrenceRuleView>,
    pub weeks: Option<Seq<u32>>,
    pub weekday: Option<u32>,
    pub off_weeks: Option<Seq<u32>>,
    pub note: Option<Seq<char>>,
    pub raw_week: Option<Seq<char>>,
    pub current_week: Option<u32>,
    pub exam_type: Option<Seq<char>>,
    pub seat: Option<Seq<char>>,
    pub status: Option<Seq<char>>,
    pub week: Option<Seq<char>>,
}

pub open spec fn opt_str_view(o: &Option<String>) -> Option<Seq<char>> {
    match o {
        Some(s) => Some(s@),
        None => None,
    }
}

pub open spec fn opt_vec_view(o: &Option<Vec<u32>>) -> Option<Seq<u32>> {
    match o {
        Some(v) => Some(v@),
        None => None,
    }
}

impl View for Course {
    type V = CourseView;

    open spec fn view(&self) -> CourseView {
        CourseView {
            name: self.name@,
            code: opt_str_view(&self.code),
            teacher: opt_str_view(&self.teacher),
            location: opt_str_view(&self.location),
            start_time: self.start_time,
            end_time: self.end_time,
            description: opt_str_view(&self.description),
            course_type: opt_str_view(&self.course_type),
            recurrence: match self.recurrence {
                Some(ref r) => Some(r@),
                None => None,
            },
            weeks: opt_vec_view(&self.weeks),
            weekday: self.weekday,
            off_weeks: opt_vec_view(&self.off_weeks),
            note: opt_str_view(&self.note),
            raw_week: opt_str_view(&self.raw_week),
            current_week: self.current_week,
            exam_type: opt_str_view(&self.exam_type),
            seat: opt_str_view(&self.seat),
            status: opt_str_view(&self.status),
            week: opt_str_view(&self.week),
        }
    }
}

/// A copy of a vector of copyable values.
pub fn copy_vec<T: Copy>(v: &Vec<T>) -> (r: Vec<T>)
    ensures
        r@ == v@,
{
    let mut out: Vec<T> = Vec::new();
    let mut i: usize = 0;
    while i < v.len()
        invariant
            0 <= i <= v@.len(),
            out@ == v@.subrange(0, i as int),
        decreases v@.len() - i,
    {
        out.push(v[i]);
        proof {
            assert(out@ =~= v@.subrange(0, i + 1));
        }
        i = i + 1;
    }
    proof {
        assert(v@.subrange(0, v@.len() as int) =~= v@);
    }
    out
}

fn clone_opt_string(o: &Option<String>) -> (r: Option<String>)
    ensures
        opt_str_view(&r) == opt_str_view(o),
{
    match o {
        Some(s) => Some(s.clone()),
        None => None,
    }
}

fn clone_opt_vec(o: &Option<Vec<u32>>) -> (r: Option<Vec<u32>>)
    ensures
        opt_vec_view(&r) == opt_vec_view(o),
{
    match o {
        Some(v) => Some(copy_vec(v)),
        None => None,
    }
}

impl Clone for RecurrenceRule {
    fn clone(&self) -> (r: Self)
        ensures
            r@ == self@,
    {
        RecurrenceRule {
            frequency: self.frequency.clone(),
            interval: self.interval,
            until: self.until,
            count: self.count,
            by_day: clone_opt_vec(&self.by_day),
            exception_dates: copy_vec(&self.exception_dates),
        }
    }
}

impl Clone for Course {
    fn clone(&self) -> (r: Self)
        ensures
            r@ == self@,
    {
        Course {
            name: self.name.clone(),
            code: clone_opt_string(&self.code),
            teacher: clone_opt_string(&self.teacher),
            location: clone_opt_string(&self.location),
            start_time: self.start_time,
            end_time: self.end_time,
            description: clone_opt_string(&self.description),
            course_type: clone_opt_string(&self.course_type),
            recurrence: match self.recurrence {
                Some(ref rule) => Some(rule.clone()),
                None => None,
            },
            weeks: clone_opt_vec(&self.weeks),
            weekday: self.weekday,
            off_weeks: clone_opt_vec(&self.off_weeks),
            note: clone_opt_string(&self.note),
            raw_week: clone_opt_string(&self.raw_week),
            current_week: self.current_week,
            exam_type: clone_opt_string(&self.exam_type),
            seat: clone_opt_string(&self.seat),
            status: clone_opt_string(&self.status),
            week: clone_opt_string(&self.week),
        }
    }
}

/// A semester: the instant of Monday, midnight, of week one, in a fixed offset.
#[derive(Debug, Clone, Copy, PartialEq, Eq, Structural)]
pub struct Semester {
    pub start_date: Instant,
}

/// Whether `s` is a date written as YYYY-MM-DD that names a real calendar date.
pub open spec fn date_str_ok(s: Seq<char>) -> bool {
    &&& s.len() == 10
    &&& s[4] == '-'
    &&& s[7] == '-'
    &&& all_digits(s.subrange(0, 4))
    &&& all_digits(s.subrange(5, 7))
    &&& all_digits(s.subrange(8, 10))
    &&& valid_ymd(date_str_year(s), date_str_month(s), date_str_day(s))
}

pub open spec fn date_str_year(s: Seq<char>) -> int {
    digits_value(s.subrange(0, 4))
}

pub open spec fn date_str_month(s: Seq<char>) -> int {
    digits_value(s.subrange(5, 7))
}

pub open spec fn date_str_day(s: Seq<char>) -> int {
    digits_value(s.subrange(8, 10))
}

/// The rata-die day number of the Monday on or before the date `s` names.
pub open spec fn date_str_monday(s: Seq<char>) -> int {
    let day = rata_die(date_str_year(s), date_str_month(s), date_str_day(s));
    day - (weekday_of_day(day) - 1)
}

/// The fixed UTC offset of the campus timezone, in seconds (UTC+8).
pub const CAMPUS_OFFSET_SECS: i32 = 28800;

impl Semester {
    /// The semester whose week one starts on the Monday, midnight (UTC+8), on
    /// or before the date written as YYYY-MM-DD.
    pub fn from_date_str(date_str: &str) -> (r: core::result::Result<Self, String>)
        ensures
            match r {
                Ok(sem) => {
                    &&& date_str_ok(date_str@)
                    &&& sem.start_date.offset_secs == CAMPUS_OFFSET_SECS
                    &&& sem.start_date.secs == (date_str_monday(date_str@) - RATA_DIE_EPOCH) * (
                    SECS_PER_DAY as int) - CAMPUS_OFFSET_SECS
                    &&& sem.start_date.local_day() == date_str_monday(date_str@)
                    &&& weekday_of_day(sem.start_date.local_day()) == 1
                },
                Err(_) => !date_str_ok(date_str@),
            },
    {
        let len = date_str.unicode_len();
        if len != 10 || date_str.get_char(4) != '-' || date_str.get_char(7) != '-' {
            let mut msg = String::new();
            msg.append("invalid date format, expected YYYY-MM-DD: ");
            msg.append(date_str);
            return Err(msg);
        }
        let y = parse_digits(date_str, 0, 4);
        let m = parse_digits(date_str, 5, 2);
        let d = parse_digits(date_str, 8, 2);
        match (y, m, d) {
            (Some(y), Some(m), Some(d)) => {
                match crate::date::Date::from_ymd(y, m, d) {
                    Some(date) => {
                        let wd = date.weekday_number();
                        let monday = date.day - (wd - 1) as i64;
                        let start = Instant {
                            secs: (monday - RATA_DIE_EPOCH) * SECS_PER_DAY
                                - CAMPUS_OFFSET_SECS as i64,
                            offset_secs: CAMPUS_OFFSET_SECS,
                        };
                        proof {
                            vstd::arithmetic::div_mod::lemma_fundamental_div_mod_converse(
                                start.secs + start.offset_secs as int,
                                SECS_PER_DAY as int,
                                monday - RATA_DIE_EPOCH,
                                0,
                            );
                        }
                        Ok(Semester { start_date: start })
                    },
                    None => {
                        let mut msg = String::new();
                        msg.append("date out of range: ");
                        msg.append(date_str);
                        Err(msg)
                    },
                }
            },
            _ => {
                let mut msg = String::new();
                msg.append("invalid date format, expected YYYY-MM-DD: ");
                msg.append(date_str);
                Err(msg)
            },
        }
    }

    /// The instant of the Monday that starts the given 1-based week.
    pub fn get_week_start(&self, week: u32) -> (r: Instant)
        requires
            self.start_date.time_ok(),
        ensures
            r.secs == self.start_date.secs + (week - 1) * 7 * (SECS_PER_DAY as int),
            r.offset_secs == self.start_date.offset_secs,
    {
        self.start_date.plus_weeks(week as i64 - 1)
    }

    /// The calendar year in which the semester starts.
    pub fn year(&self) -> (y: i32)
        requires
            1 <= self.start_date.local_day() <= RATA_DIE_MAX,
            -SECS_WIDE_LIMIT + 0x1_0000_0000 <= self.start_date.secs <= SECS_WIDE_LIMIT
                - 0x1_0000_0000,
        ensures
            days_before_year(y as int) < self.start_date.local_day() <= days_before_year(
                y as int + 1,
            ),
    {
        let date = self.start_date.date_naive();
        let (y, m, d) = date.to_ymd();
        proof {
            lemma_year_length(y as int);
        }
        y as i32
    }
}

/// User credentials handed to a provider.
#[derive(Debug, Clone)]
pub struct Credentials {
    pub username: String,
    pub password: String,
    /// Extra provider-specific fields, as key/value pairs.
    pub extra: Vec<(String, String)>,
}

/// A course query request.
#[derive(Debug, Clone)]
pub struct CourseRequest {
    pub credentials: Credentials,
    pub semester: Option<Semester>,
}

/// A course query response.
#[derive(Debug)]
pub struct CourseResponse {
    pub courses: Vec<Course>,
    pub semester: Semester,
    pub generated_at: Instant,
}

/// Options for calendar-text generation.
#[derive(Debug, Clone)]
pub struct IcsOptions {
    pub calendar_name: Option<String>,
    pub include_description: bool,
    pub include_teacher: bool,
    pub reminder_minutes: Option<u32>,
}

impl Default for IcsOptions {
    /// The default options: the campus calendar name, descriptions included,
    /// teacher included, a reminder fifteen minutes ahead.
    fn default() -> (r: Self)
        ensures
            r.calendar_name is Some,
            r.calendar_name.unwrap()@ == "CQUPT\u{8bfe}\u{7a0b}\u{8868}"@,
            r.include_description,
            r.include_teacher,
            r.reminder_minutes == Some(15u32),
    {
        let mut name = String::new();
        name.append("CQUPT\u{8bfe}\u{7a0b}\u{8868}");
        IcsOptions {
            calendar_name: Some(name),
            include_description: true,
            include_teacher: true,
            reminder_minutes: Some(15),
        }
    }
}

/// A mapping from a raw location name to its normalized form.
#[derive(Debug)]
pub struct LocationMapping {
    pub original: String,
    pub normalized: String,
    pub building: Option<String>,
    pub room: Option<String>,
    pub campus: Option<String>,
}

/// The mathematical value of a `LocationMapping`.
pub ghost struct LocationMappingView {
    pub original: Seq<char>,
    pub normalized: Seq<char>,
    pub building: Option<Seq<char>>,
    pub room: Option<Seq<char>>,
    pub campus: Option<Seq<char>>,
}

impl View for LocationMapping {
    type V = LocationMappingView;

    open spec fn view(&self) -> LocationMappingView {
        LocationMappingView {
            original: self.original@,
            normalized: self.normalized@,
            building: opt_str_view(&self.building),
            room: opt_str_view(&self.room),
            campus: opt_str_view(&self.campus),
        }
    }
}

impl Clone for LocationMapping {
    fn clone(&self) -> (r: Self)
        ensures
            r@ == self@,
    {
        LocationMapping {
            original: self.original.clone(),
            normalized: self.normalized.clone(),
            building: clone_opt_string(&self.building),
            room: clone_opt_string(&self.room),
            campus: clone_opt_string(&self.campus),
        }
    }
}

} // verus!
