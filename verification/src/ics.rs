use vstd::prelude::*;
use vstd::string::StringExecFns;
use crate::date::{Instant, SECS_PER_DAY};
use crate::error::Error;
use crate::location::LocationManager;
use crate::strutil::{contains_seq, contains_sub, replace_all, replace_seq};
use crate::types::{Course, CourseView, IcsOptions};

verus! {

pub const SECS_PER_WEEK: i64 = 604800;

/// Whether a week list is ascending without repeats.
pub open spec fn week_list_ascending(s: Seq<u32>) -> bool {
    forall|i: int| 0 < i < s.len() ==> s[i - 1] < #[trigger] s[i]
}

/// `t` shifted by a number of weeks, as computed on machine integers.
pub open spec fn shift_weeks_spec(t: Instant, wdiff: int) -> Instant {
    Instant { secs: (t.secs + wdiff * (SECS_PER_WEEK as int)) as i64, offset_secs: t.offset_secs }
}

/// Whether every consecutive pair of the list differs by the same step.
pub open spec fn is_uniform(weeks: Seq<u32>) -> bool {
    forall|i: int| 0 < i < weeks.len() ==> #[trigger] weeks[i] - weeks[i - 1] == weeks[1] - weeks[0]
}

/// The weeks in `[from, last]` that are absent from the list, ascending.
pub open spec fn gap_weeks(weeks: Seq<u32>, from: int, last: int) -> Seq<u32>
    decreases last + 1 - from,
{
    if from > last {
        Seq::empty()
    } else {
        let rest = gap_weeks(weeks, from + 1, last);
        if weeks.contains(from as u32) {
            rest
        } else {
            seq![from as u32] + rest
        }
    }
}

/// The occurrence instants of the given weeks, each `w - first` weeks past
/// the start instant.
pub open spec fn exception_times(start: Instant, first: u32, gaps: Seq<u32>) -> Seq<Instant> {
    gaps.map_values(|w: u32| shift_weeks_spec(start, w - first))
}

/// The recurrence description synthesized from a nonempty ascending week
/// list: a weekly rule whose end lies `last - 1` weeks past the start; with
/// the common step as its interval when the list is uniformly spaced, else
/// with interval one and one exception instant per missing week.
pub open spec fn recurrence_of(weeks: Seq<u32>, weekday: u32, start: Instant) -> crate::types::RecurrenceRuleView {
    let first = weeks[0];
    let last = weeks[weeks.len() - 1];
    let until = shift_weeks_spec(start, last - 1);
    if weeks.len() > 1 && is_uniform(weeks) {
        crate::types::RecurrenceRuleView {
            frequency: "WEEKLY"@,
            interval: (weeks[1] - weeks[0]) as u32,
            until: Some(until),
            count: None,
            by_day: Some(seq![weekday]),
            exception_dates: Seq::empty(),
        }
    } else {
        crate::types::RecurrenceRuleView {
            frequency: "WEEKLY"@,
            interval: 1u32,
            until: Some(until),
            count: None,
            by_day: Some(seq![weekday]),
            exception_dates: exception_times(start, first, gap_weeks(weeks, first as int, last as int)),
        }
    }
}

/// Whether a course is an exam occurrence: it carries an exam type, or its
/// course type speaks of an exam.
pub open spec fn is_exam_spec(c: CourseView) -> bool {
    ||| c.exam_type is Some
    ||| (c.course_type is Some && contains_seq(c.course_type.unwrap(), "\u{8003}\u{8bd5}"@))
}

/// Whether a course gets a synthesized recurrence rule: it is no exam and
/// carries both a week list and a weekday.
pub open spec fn wants_rule(c: CourseView) -> bool {
    !is_exam_spec(c) && c.weeks is Some && c.weekday is Some
}

/// A course together with its synthesized recurrence description.
pub struct CourseWithRecurrence {
    pub course: Course,
    pub recurrence: Option<crate::types::RecurrenceRule>,
}

/// The mathematical value of a `CourseWithRecurrence`.
pub ghost struct CourseWithRecurrenceView {
    pub course: CourseView,
    pub recurrence: Option<crate::types::RecurrenceRuleView>,
}

impl View for CourseWithRecurrence {
    type V = CourseWithRecurrenceView;

    open spec fn view(&self) -> CourseWithRecurrenceView {
        CourseWithRecurrenceView {
            course: self.course@,
            recurrence: match self.recurrence {
                Some(ref r) => Some(r@),
                None => None,
            },
        }
    }
}

/// What `process_courses` yields for one course.
pub open spec fn processed_course_ok(c: CourseView, out: CourseWithRecurrenceView) -> bool {
    &&& out.course == c
    &&& if wants_rule(c) {
        out.recurrence == Some(recurrence_of(c.weeks.unwrap(), c.weekday.unwrap(), c.start_time))
    } else {
        out.recurrence is None
    }
}

proof fn lemma_ascending_ordered(s: Seq<u32>, i: int, j: int)
    requires
        week_list_ascending(s),
        0 <= i < j < s.len(),
    ensures
        s[i] < s[j],
    decreases j - i,
{
    if i + 1 < j {
        lemma_ascending_ordered(s, i, j - 1);
    }
}

fn vec_contains_u32(v: &Vec<u32>, x: u32) -> (r: bool)
    ensures
        r == v@.contains(x),
{
    let mut i: usize = 0;
    while i < v.len()
        invariant
            0 <= i <= v@.len(),
            forall|k: int| 0 <= k < i ==> v@[k] != x,
        decreases v@.len() - i,
    {
        if v[i] == x {
            return true;
        }
        i = i + 1;
    }
    false
}


fn check_uniform(weeks: &Vec<u32>) -> (r: bool)
    requires
        weeks@.len() > 0,
        week_list_ascending(weeks@),
    ensures
        r == (weeks@.len() > 1 && is_uniform(weeks@)),
{
    if weeks.len() <= 1 {
        return false;
    }
    let step = weeks[1] - weeks[0];
    let mut i: usize = 1;
    while i < weeks.len()
        invariant
            1 <= i <= weeks@.len(),
            weeks@.len() > 1,
            week_list_ascending(weeks@),
            step == weeks@[1] - weeks@[0],
            forall|k: int| 0 < k < i ==> #[trigger] weeks@[k] - weeks@[k - 1] == step,
        decreases weeks@.len() - i,
    {
        if weeks[i] - weeks[i - 1] != step {
            return false;
        }
        i = i + 1;
    }
    true
}

#[verifier::rlimit(60)]
fn build_exception_dates(weeks: &Vec<u32>, first: u32, last: u32, start_time: &Instant) -> (r: Vec<
    Instant,
>)
    requires
        first <= last,
        start_time.time_ok(),
    ensures
        r@ == exception_times(*start_time, first, gap_weeks(weeks@, first as int, last as int)),
{
    let mut exceptions: Vec<Instant> = Vec::new();
    let mut w: u64 = first as u64;
    proof {
        assert(exceptions@ =~= Seq::<Instant>::empty());
        assert(exception_times(*start_time, first, Seq::empty()) =~= Seq::<Instant>::empty());
    }
    while w <= last as u64
        invariant
            first as u64 <= w <= last as u64 + 1,
            first <= last,
            start_time.time_ok(),
            exception_times(*start_time, first, gap_weeks(weeks@, first as int, last as int))
                == exceptions@ + exception_times(
                *start_time,
                first,
                gap_weeks(weeks@, w as int, last as int),
            ),
        decreases last as int + 1 - w,
    {
        let wu = w as u32;
        let ghost pre = exceptions@;
        if !vec_contains_u32(weeks, wu) {
            let t = start_time.plus_weeks(wu as i64 - first as i64);
            exceptions.push(t);
            proof {
                let g = gap_weeks(weeks@, w as int, last as int);
                let grest = gap_weeks(weeks@, w + 1, last as int);
                assert(g == seq![wu] + grest);
                assert(exception_times(*start_time, first, g) =~= seq![
                    shift_weeks_spec(*start_time, wu - first),
                ] + exception_times(*start_time, first, grest));
                assert(t == shift_weeks_spec(*start_time, wu - first));
                assert(pre + exception_times(*start_time, first, g) =~= exceptions@
                    + exception_times(*start_time, first, grest));
            }
        } else {
            proof {
                assert(weeks@.contains(wu));
                assert(gap_weeks(weeks@, w as int, last as int) == gap_weeks(
                    weeks@,
                    w + 1,
                    last as int,
                ));
            }
        }
        w = w + 1;
    }
    proof {
        assert(gap_weeks(weeks@, last as int + 1, last as int) =~= Seq::<u32>::empty());
        assert(exception_times(*start_time, first, Seq::empty()) =~= Seq::<Instant>::empty());
        assert(exceptions@ + Seq::<Instant>::empty() =~= exceptions@);
    }
    exceptions
}

/// Generates calendar text from course lists; holds the generation options
/// and the location table.
pub struct IcsGenerator {
    options: IcsOptions,
    location_manager: LocationManager,
}

impl IcsGenerator {
    pub closed spec fn location_wf(&self) -> bool {
        self.location_manager.wf()
    }

    /// The generation options the generator was built with.
    pub closed spec fn options_value(&self) -> IcsOptions {
        self.options
    }

    /// The generator's location table, as mathematical values.
    pub closed spec fn location_table(&self) -> Seq<crate::types::LocationMappingView> {
        self.location_manager.view_seq()
    }

    /// A generator with the given options and the default location table.
    pub fn new(options: IcsOptions) -> (r: Self)
        ensures
            r.location_wf(),
            r.options_value() == options,
            r.location_table() == LocationManager::default_table(),
    {
        IcsGenerator { options, location_manager: LocationManager::default() }
    }

    /// The generator's location table.
    pub fn location_manager(&self) -> (r: &LocationManager)
        ensures
            r.wf() == self.location_wf(),
            r.view_seq() == self.location_table(),
    {
        &self.location_manager
    }

    /// The generator's options.
    pub fn options(&self) -> (r: &IcsOptions)
        ensures
            *r == self.options_value(),
    {
        &self.options
    }

    /// Whether a course is an exam occurrence.
    pub fn is_exam_course(&self, course: &Course) -> (r: bool)
        ensures
            r == is_exam_spec(course@),
    {
        if course.exam_type.is_some() {
            return true;
        }
        match &course.course_type {
            Some(t) => contains_sub(t.as_str(), "\u{8003}\u{8bd5}"),
            None => false,
        }
    }

    /// Synthesizes the recurrence description of a nonempty ascending week
    /// list: the common step as the interval when the spacing is uniform,
    /// else interval one with an exception instant for every missing week in
    /// `[first, last]`. An empty list is rejected.
    pub fn create_recurrence_rule(
        &self,
        weeks: &Vec<u32>,
        weekday: u32,
        start_time: &Instant,
    ) -> (r: Result<crate::types::RecurrenceRule, Error>)
        requires
            week_list_ascending(weeks@),
            start_time.time_ok(),
        ensures
            match r {
                Ok(rule) => {
                    &&& weeks@.len() > 0
                    &&& rule@ == recurrence_of(weeks@, weekday, *start_time)
                    &&& (weeks@.len() > 1 && is_uniform(weeks@) ==> rule@.interval == weeks@[1]
                        - weeks@[0] && rule@.exception_dates.len() == 0)
                    &&& (weeks@.len() == 1 ==> rule@.interval == 1 && rule@.exception_dates.len()
                        == 0)
                },
                Err(e) => weeks@.len() == 0 && (e matches Error::Config(m) && m@
                    == "Course has no week data"@),
            },
    {
        if weeks.len() == 0 {
            let mut msg = String::new();
            msg.append("Course has no week data");
            proof {
                reveal_strlit("Course has no week data");
            }
            return Err(Error::Config(msg));
        }
        let first = weeks[0];
        let last = weeks[weeks.len() - 1];
        proof {
            if weeks@.len() > 1 {
                assert(weeks@[0] < weeks@[weeks@.len() - 1]) by {
                    lemma_ascending_ordered(weeks@, 0, weeks@.len() - 1);
                }
            }
        }
        let until = start_time.plus_weeks(last as i64 - 1);
        let uniform = check_uniform(weeks);

        let mut frequency = String::new();
        frequency.append("WEEKLY");
        let mut by_day: Vec<u32> = Vec::new();
        by_day.push(weekday);
        proof {
            assert(by_day@ =~= seq![weekday]);
        }

        proof {
            assert(frequency@ =~= "WEEKLY"@);
        }
        if uniform {
            let exceptions: Vec<Instant> = Vec::new();
            proof {
                assert(exceptions@ =~= Seq::<Instant>::empty());
            }
            Ok(crate::types::RecurrenceRule {
                frequency,
                interval: weeks[1] - weeks[0],
                until: Some(until),
                count: None,
                by_day: Some(by_day),
                exception_dates: exceptions,
            })
        } else {
            let exceptions = build_exception_dates(weeks, first, last, start_time);
            proof {
                if weeks@.len() == 1 {
                    assert(weeks@.contains(first));
                    assert(gap_weeks(weeks@, first as int, last as int) == gap_weeks(
                        weeks@,
                        first as int + 1,
                        last as int,
                    ));
                    assert(exception_times(
                        *start_time,
                        first,
                        gap_weeks(weeks@, first as int, last as int),
                    ) =~= Seq::<Instant>::empty());
                }
            }
            Ok(crate::types::RecurrenceRule {
                frequency,
                interval: 1,
                until: Some(until),
                count: None,
                by_day: Some(by_day),
                exception_dates: exceptions,
            })
        }
    }

    /// Pairs each course with its synthesized recurrence: exams and courses
    /// without a week/weekday pair get none; the rest get the rule of their
    /// week list. Fails on the first course whose week list is empty.
    pub fn process_courses(&self, courses: &Vec<Course>) -> (r: Result<
        Vec<CourseWithRecurrence>,
        Error,
    >)
        requires
            forall|i: int|
                0 <= i < courses@.len() && #[trigger] courses@[i]@.weeks is Some
                    ==> week_list_ascending(courses@[i]@.weeks.unwrap()),
            forall|i: int| 0 <= i < courses@.len() ==> (#[trigger] courses@[i]@.start_time).time_ok(),
        ensures
            match r {
                Ok(out) => {
                    &&& out@.len() == courses@.len()
                    &&& forall|i: int|
                        0 <= i < courses@.len() ==> processed_course_ok(
                            courses@[i]@,
                            #[trigger] out@[i]@,
                        )
                },
                Err(e) => (exists|i: int|
                    0 <= i < courses@.len() && wants_rule(#[trigger] courses@[i]@)
                        && courses@[i]@.weeks.unwrap().len() == 0) && (e matches Error::Config(m)
                    && m@ == "Course has no week data"@),
            },
    {
        let mut processed: Vec<CourseWithRecurrence> = Vec::new();
        let mut i: usize = 0;
        while i < courses.len()
            invariant
                0 <= i <= courses@.len(),
                processed@.len() == i,
                forall|k: int|
                    0 <= k < courses@.len() && #[trigger] courses@[k]@.weeks is Some
                        ==> week_list_ascending(courses@[k]@.weeks.unwrap()),
                forall|k: int|
                    0 <= k < courses@.len() ==> (#[trigger] courses@[k]@.start_time).time_ok(),
                forall|k: int|
                    0 <= k < i ==> processed_course_ok(courses@[k]@, #[trigger] processed@[k]@),
            decreases courses@.len() - i,
        {
            let course = &courses[i];
            proof {
                assert(courses@[i as int]@.start_time.time_ok());
                if courses@[i as int]@.weeks is Some {
                    assert(week_list_ascending(courses@[i as int]@.weeks.unwrap()));
                }
            }
            let item = if self.is_exam_course(course) {
                CourseWithRecurrence { course: course.clone(), recurrence: None }
            } else {
                match (&course.weeks, course.weekday) {
                    (Some(weeks), Some(weekday)) => {
                        let rule = self.create_recurrence_rule(weeks, weekday, &course.start_time);
                        match rule {
                            Ok(rule) => CourseWithRecurrence {
                                course: course.clone(),
                                recurrence: Some(rule),
                            },
                            Err(e) => {
                                return Err(e);
                            },
                        }
                    },
                    _ => CourseWithRecurrence { course: course.clone(), recurrence: None },
                }
            };
            processed.push(item);
            i = i + 1;
        }
        Ok(processed)
    }

    /// Escapes the characters that carry meaning in calendar text:
    /// backslash, newline, carriage return, comma and semicolon.
    pub fn escape_text(&self, text: &str) -> (r: String)
        ensures
            r@ == escape_text_spec(text@),
    {
        let a = replace_all(text, "\\", "\\\\");
        let b = replace_all(a.as_str(), "\n", "\\n");
        let c = replace_all(b.as_str(), "\r", "\\r");
        let d = replace_all(c.as_str(), ",", "\\,");
        replace_all(d.as_str(), ";", "\\;")
    }
}

/// The calendar-text escaping of `s`.
pub open spec fn escape_text_spec(s: Seq<char>) -> Seq<char> {
    replace_seq(
        replace_seq(
            replace_seq(replace_seq(replace_seq(s, "\\"@, "\\\\"@), "\n"@, "\\n"@), "\r"@, "\\r"@),
            ","@,
            "\\,"@,
        ),
        ";"@,
        "\\;"@,
    )
}

impl Default for IcsGenerator {
    /// A generator with the default options.
    fn default() -> (r: Self)
        ensures
            r.location_wf(),
    {
        IcsGenerator::new(IcsOptions::default())
    }
}

/// The weeks of a list that are not in the off-week set.
pub open spec fn prune_weeks(weeks: Seq<u32>, off: Set<u32>) -> Seq<u32> {
    weeks.filter(|w: u32| !off.contains(w))
}

proof fn lemma_filter_twice<A>(s: Seq<A>, p: spec_fn(A) -> bool)
    ensures
        s.filter(p).filter(p) == s.filter(p),
    decreases s.len(),
{
    reveal(Seq::filter);
    if s.len() == 0 {
        assert(s.filter(p) =~= s);
    } else {
        let d = s.drop_last();
        lemma_filter_twice(d, p);
        if p(s.last()) {
            assert(s.filter(p) == d.filter(p).push(s.last()));
            let t = d.filter(p).push(s.last());
            assert(t.drop_last() =~= d.filter(p));
            assert(t.filter(p) =~= d.filter(p).filter(p).push(s.last()));
        } else {
            assert(s.filter(p) == d.filter(p));
        }
    }
}

/// Synthesis is stable under re-pruning: removing a course's off-weeks from
/// an already-pruned week list changes nothing, so running the synthesizer
/// on the re-pruned list yields the same recurrence as running it once on
/// the list with those weeks excluded from the start.
pub proof fn lemma_synthesizer_idempotent(
    weeks: Seq<u32>,
    off: Set<u32>,
    weekday: u32,
    start: Instant,
)
    ensures
        prune_weeks(prune_weeks(weeks, off), off) == prune_weeks(weeks, off),
        recurrence_of(prune_weeks(prune_weeks(weeks, off), off), weekday, start) == recurrence_of(
            prune_weeks(weeks, off),
            weekday,
            start,
        ),
{
    lemma_filter_twice(weeks, |w: u32| !off.contains(w));
}

} // verus!
