use cqupt_ics::date::Date;
use cqupt_ics::holiday::{HolidayCalendar, HolidayIcalEvent};
use cqupt_ics::ics::IcsGenerator;
use cqupt_ics::types::IcsOptions;

fn event(props: Vec<(&str, Option<&str>)>) -> HolidayIcalEvent {
    HolidayIcalEvent {
        properties: props
            .into_iter()
            .map(|(k, v)| (k.to_string(), v.map(|s| s.to_string())))
            .collect(),
    }
}

#[test]
fn a_feed_builds_a_matched_calendar() {
    let events = vec![
        event(vec![
            ("UID", Some("festival")),
            ("SUMMARY", Some("春节 放假")),
            ("DTSTART", Some("20250128")),
            ("DTEND", Some("20250205")),
        ]),
        event(vec![
            ("UID", Some("festival")),
            ("SUMMARY", Some("春节 上班")),
            ("DTSTART", Some("20250126")),
        ]),
        event(vec![
            ("UID", Some("festival")),
            ("SUMMARY", Some("春节 上班")),
            ("DTSTART", Some("20250208")),
        ]),
        event(vec![
            ("SUMMARY", Some("部门例会")),
            ("DTSTART", Some("20250203")),
        ]),
    ];
    let calendar = HolidayCalendar::from_events(&events).unwrap();
    let feb3 = Date::from_ymd(2025, 2, 3).unwrap();
    let feb4 = Date::from_ymd(2025, 2, 4).unwrap();
    assert!(calendar.is_rest_day(feb3));
    assert_eq!(calendar.makeup_for(feb3), Some(Date::from_ymd(2025, 1, 26).unwrap()));
    assert_eq!(calendar.makeup_for(feb4), Some(Date::from_ymd(2025, 2, 8).unwrap()));
}

#[test]
fn a_feed_entry_without_a_start_date_is_rejected() {
    let events = vec![event(vec![("SUMMARY", Some("元旦 放假"))])];
    assert!(HolidayCalendar::from_events(&events).is_err());
    let events = vec![event(vec![
        ("SUMMARY", Some("元旦 放假")),
        ("DTSTART", Some("abc")),
    ])];
    assert!(HolidayCalendar::from_events(&events).is_err());
}

#[test]
fn the_explicit_tag_overrides_the_summary() {
    let events = vec![event(vec![
        ("X-APPLE-SPECIAL-DAY", Some("ALTERNATE-WORKDAY")),
        ("SUMMARY", Some("放假")),
        ("DTSTART", Some("20250126")),
    ])];
    let calendar = HolidayCalendar::from_events(&events).unwrap();
    let jan26 = Date::from_ymd(2025, 1, 26).unwrap();
    // A make-up entry with no rest entry in its group contributes nothing.
    assert!(!calendar.is_rest_day(jan26));
    assert!(!calendar.is_makeup_day(jan26));
}

fn exam_course(course_type: Option<&str>, exam_type: Option<&str>) -> cqupt_ics::types::Course {
    cqupt_ics::types::Course {
        name: "课程".to_string(),
        code: None,
        teacher: None,
        location: None,
        start_time: cqupt_ics::date::Instant { secs: 0, offset_secs: 0 },
        end_time: cqupt_ics::date::Instant { secs: 0, offset_secs: 0 },
        description: None,
        course_type: course_type.map(|s| s.to_string()),
        recurrence: None,
        weeks: Some(vec![1, 2, 3]),
        weekday: Some(1),
        off_weeks: None,
        note: None,
        raw_week: None,
        current_week: None,
        exam_type: exam_type.map(|s| s.to_string()),
        seat: None,
        status: None,
        week: None,
    }
}

#[test]
fn exams_bypass_recurrence_synthesis() {
    let generator = IcsGenerator::new(IcsOptions::default());
    assert!(generator.is_exam_course(&exam_course(None, Some("期末"))));
    assert!(generator.is_exam_course(&exam_course(Some("期末考试"), None)));
    assert!(!generator.is_exam_course(&exam_course(Some("必修"), None)));

    let courses = vec![
        exam_course(None, Some("期末")),
        exam_course(Some("必修"), None),
    ];
    let processed = generator.process_courses(&courses).unwrap();
    assert_eq!(processed.len(), 2);
    assert!(processed[0].recurrence.is_none());
    let rule = processed[1].recurrence.as_ref().unwrap();
    assert_eq!(rule.interval, 1);
    assert_eq!(rule.by_day, Some(vec![1]));
}
