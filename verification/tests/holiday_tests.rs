use cqupt_ics::date::{Date, Instant};
use cqupt_ics::holiday::{HolidayCalendar, HolidayGroup};
use cqupt_ics::types::{Course, Semester};

fn day(y: u32, m: u32, d: u32) -> i64 {
    Date::from_ymd(y, m, d).unwrap().day
}

fn date(y: u32, m: u32, d: u32) -> Date {
    Date::from_ymd(y, m, d).unwrap()
}

fn range_days(y: u32, m: u32, d: u32, n: i64) -> Vec<i64> {
    let start = day(y, m, d);
    (0..n).map(|k| start + k).collect()
}

fn national_day_calendar() -> HolidayCalendar {
    // The national holiday: a rest cluster with make-up days on both sides.
    let groups = vec![HolidayGroup {
        key: "national-day".to_string(),
        rest: range_days(2025, 10, 1, 8),
        makeup: vec![day(2025, 9, 28), day(2025, 10, 11)],
    }];
    HolidayCalendar::build(&groups).unwrap()
}

fn spring_festival_calendar() -> HolidayCalendar {
    // The spring festival: an eight-day rest cluster with make-up days on
    // both sides.
    let groups = vec![HolidayGroup {
        key: "spring-festival".to_string(),
        rest: range_days(2025, 1, 28, 8),
        makeup: vec![day(2025, 1, 26), day(2025, 2, 8)],
    }];
    HolidayCalendar::build(&groups).unwrap()
}

#[test]
fn national_day_2025_makeup_days() {
    let calendar = national_day_calendar();
    let rest_oct7 = date(2025, 10, 7);
    assert_eq!(calendar.makeup_for(rest_oct7), Some(date(2025, 9, 28)));
}

#[test]
fn spring_festival_2025_adjustments() {
    let calendar = spring_festival_calendar();
    for offset in 0..8 {
        let d = Date {
            day: day(2025, 1, 28) + offset,
        };
        assert!(calendar.is_rest_day(d), "expected a rest day");
    }

    let rest_feb03 = date(2025, 2, 3);
    let rest_feb04 = date(2025, 2, 4);
    assert_eq!(calendar.makeup_for(rest_feb03), Some(date(2025, 1, 26)));
    assert_eq!(calendar.makeup_for(rest_feb04), Some(date(2025, 2, 8)));

    let makeup_jan26 = date(2025, 1, 26);
    let makeup_feb08 = date(2025, 2, 8);
    assert!(calendar.is_makeup_day(makeup_jan26));
    assert!(calendar.is_makeup_day(makeup_feb08));
    assert_eq!(calendar.rest_for_makeup(makeup_jan26), Some(rest_feb03));
    assert_eq!(calendar.rest_for_makeup(makeup_feb08), Some(rest_feb04));
}

fn plain_course(name: &str, start: Instant, end: Instant, weeks: Vec<u32>, weekday: u32) -> Course {
    Course {
        name: name.to_string(),
        code: None,
        teacher: None,
        location: None,
        start_time: start,
        end_time: end,
        description: None,
        course_type: None,
        recurrence: None,
        weeks: Some(weeks),
        weekday: Some(weekday),
        off_weeks: None,
        note: None,
        raw_week: None,
        current_week: None,
        exam_type: None,
        seat: None,
        status: None,
        week: None,
    }
}

const TZ: i32 = 8 * 3600;

#[test]
fn reconciliation_marks_off_week_and_appends_duplicate() {
    let calendar = spring_festival_calendar();
    let semester = Semester {
        start_date: Instant::from_ymd_hms(2025, 1, 6, 0, 0, 0, TZ).unwrap(),
    };
    let monday = plain_course(
        "软件工程导论",
        Instant::from_ymd_hms(2025, 1, 6, 8, 0, 0, TZ).unwrap(),
        Instant::from_ymd_hms(2025, 1, 6, 10, 0, 0, TZ).unwrap(),
        vec![1, 2, 3, 4, 5, 6],
        1,
    );
    let mut courses = vec![monday];
    calendar.apply_to_courses(&mut courses, &semester);

    // Week five's Monday falls on 2025-02-03, a rest day matched to
    // 2025-01-26: the original is marked and exactly one duplicate appears.
    assert_eq!(courses.len(), 2);
    assert_eq!(courses[0].off_weeks, Some(vec![5]));
    assert!(courses[0].weeks.is_some());
    let duplicate = &courses[1];
    assert_eq!(duplicate.name, "软件工程导论");
    assert!(duplicate.weeks.is_none());
    assert!(duplicate.weekday.is_none());
    assert_eq!(duplicate.start_time.date_naive(), date(2025, 1, 26));
    assert!(duplicate.raw_week.as_ref().unwrap().contains("调休补课"));
}

#[test]
fn reconciliation_both_weekdays() {
    let calendar = spring_festival_calendar();
    let semester = Semester {
        start_date: Instant::from_ymd_hms(2025, 1, 6, 0, 0, 0, TZ).unwrap(),
    };
    let mut courses = vec![
        plain_course(
            "软件工程导论",
            Instant::from_ymd_hms(2025, 1, 6, 8, 0, 0, TZ).unwrap(),
            Instant::from_ymd_hms(2025, 1, 6, 10, 0, 0, TZ).unwrap(),
            vec![1, 2, 3, 4, 5, 6],
            1,
        ),
        plain_course(
            "操作系统",
            Instant::from_ymd_hms(2025, 1, 7, 14, 0, 0, TZ).unwrap(),
            Instant::from_ymd_hms(2025, 1, 7, 16, 0, 0, TZ).unwrap(),
            vec![1, 2, 3, 4, 5],
            2,
        ),
    ];
    calendar.apply_to_courses(&mut courses, &semester);

    assert_eq!(courses.len(), 4);
    assert_eq!(courses[0].off_weeks, Some(vec![5]));
    // Week four's Tuesday (2025-01-28) is a rest day too, though unmatched:
    // it is suppressed without a duplicate.
    assert_eq!(courses[1].off_weeks, Some(vec![4, 5]));
    let makeup_monday = courses
        .iter()
        .find(|c| c.name == "软件工程导论" && c.raw_week.is_some())
        .expect("monday make-up course missing");
    assert_eq!(makeup_monday.start_time.date_naive(), date(2025, 1, 26));
    let makeup_tuesday = courses
        .iter()
        .find(|c| c.name == "操作系统" && c.raw_week.is_some())
        .expect("tuesday make-up course missing");
    assert_eq!(makeup_tuesday.start_time.date_naive(), date(2025, 2, 8));
}

#[test]
fn single_occurrence_record_is_shifted_and_appended() {
    let calendar = spring_festival_calendar();
    let semester = Semester {
        start_date: Instant::from_ymd_hms(2025, 1, 6, 0, 0, 0, TZ).unwrap(),
    };
    let mut exam = plain_course(
        "考试",
        Instant::from_ymd_hms(2025, 2, 3, 9, 0, 0, TZ).unwrap(),
        Instant::from_ymd_hms(2025, 2, 3, 11, 0, 0, TZ).unwrap(),
        vec![],
        1,
    );
    exam.weeks = None;
    exam.weekday = None;
    let mut courses = vec![exam];
    calendar.apply_to_courses(&mut courses, &semester);
    assert_eq!(courses.len(), 2);
    assert_eq!(courses[1].start_time.date_naive(), date(2025, 1, 26));
    assert!(courses[1].note.is_some());
}

#[test]
fn unmatched_rest_days_stay_unmatched() {
    // Two rest days, one make-up candidate: only one rest day gets matched.
    let groups = vec![HolidayGroup {
        key: "short".to_string(),
        rest: vec![day(2025, 5, 1), day(2025, 5, 2)],
        makeup: vec![day(2025, 4, 27)],
    }];
    let calendar = HolidayCalendar::build(&groups).unwrap();
    let matched = [date(2025, 5, 1), date(2025, 5, 2)]
        .iter()
        .filter(|d| calendar.makeup_for(**d).is_some())
        .count();
    assert_eq!(matched, 1);
    // The last workday of the cluster is preferred: 2025-05-02 is a Friday.
    assert_eq!(calendar.makeup_for(date(2025, 5, 2)), Some(date(2025, 4, 27)));
    assert_eq!(calendar.makeup_for(date(2025, 5, 1)), None);
}

#[test]
fn distant_rest_days_form_separate_clusters() {
    // Two rest days more than the cluster gap apart consume candidates from
    // their own windows only.
    let groups = vec![HolidayGroup {
        key: "two-festivals".to_string(),
        rest: vec![day(2025, 1, 1), day(2025, 10, 1)],
        makeup: vec![day(2025, 1, 4), day(2025, 9, 28)],
    }];
    let calendar = HolidayCalendar::build(&groups).unwrap();
    assert_eq!(calendar.makeup_for(date(2025, 1, 1)), Some(date(2025, 1, 4)));
    assert_eq!(calendar.makeup_for(date(2025, 10, 1)), Some(date(2025, 9, 28)));
}

#[test]
fn groups_with_no_makeup_only_report_rest_days() {
    let groups = vec![HolidayGroup {
        key: "plain-holiday".to_string(),
        rest: vec![day(2025, 6, 1)],
        makeup: vec![],
    }];
    let calendar = HolidayCalendar::build(&groups).unwrap();
    assert!(calendar.is_rest_day(date(2025, 6, 1)));
    assert!(!calendar.is_makeup_day(date(2025, 6, 1)));
    assert_eq!(calendar.makeup_for(date(2025, 6, 1)), None);
    assert_eq!(calendar.rest_for_makeup(date(2025, 6, 1)), None);
}
