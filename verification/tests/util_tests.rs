use cqupt_ics::cache::CacheManager;
use cqupt_ics::date::{Date, Instant};
use cqupt_ics::holiday::{classify_event, parse_date, HolidayEventKind};
use cqupt_ics::ics::IcsGenerator;
use cqupt_ics::providers::Context;
use cqupt_ics::types::{IcsOptions, Semester};

#[test]
fn calendar_dates_carry_their_weekdays() {
    // 2025-10-07 is a Tuesday, 2025-01-06 a Monday, 2025-02-08 a Saturday.
    assert_eq!(Date::from_ymd(2025, 10, 7).unwrap().weekday_number(), 2);
    assert_eq!(Date::from_ymd(2025, 1, 6).unwrap().weekday_number(), 1);
    assert_eq!(Date::from_ymd(2025, 2, 8).unwrap().weekday_number(), 6);
    assert!(Date::from_ymd(2025, 2, 30).is_none());
    assert!(Date::from_ymd(2024, 2, 29).is_some());
    let (y, m, d) = Date::from_ymd(2025, 10, 7).unwrap().to_ymd();
    assert_eq!((y, m, d), (2025, 10, 7));
}

#[test]
fn parse_date_accepts_the_three_encodings() {
    let expect = Date::from_ymd(2025, 10, 7).unwrap();
    assert_eq!(parse_date("20251007"), Some(expect));
    assert_eq!(parse_date("20251007T083000"), Some(expect));
    assert_eq!(parse_date("20251007T083000Z"), Some(expect));
    // The full timestamp-with-offset form goes through the timestamp parser.
    let exam_day = Date::from_ymd(2024, 4, 26).unwrap();
    assert_eq!(parse_date("2024-04-26T11:30:00Z"), Some(exam_day));
    assert_eq!(parse_date("2024-04-26T11:30:00+08:00"), Some(exam_day));
    assert_eq!(parse_date("not a date"), None);
    assert_eq!(parse_date("20251307"), None);
    assert_eq!(parse_date("20251007T253000"), None);
}

#[test]
fn classification_uses_the_tag_then_the_summary() {
    let tag_rest = "WORK-HOLIDAY".to_string();
    let tag_makeup = "ALTERNATE-WORKDAY".to_string();
    let tag_other = "SOMETHING".to_string();
    let rest_summary = "国庆节 放假".to_string();
    let makeup_summary = "国庆节 上班".to_string();
    let plain_summary = "例会".to_string();
    assert_eq!(classify_event(Some(&tag_rest), None), Some(HolidayEventKind::Rest));
    assert_eq!(
        classify_event(Some(&tag_makeup), Some(&rest_summary)),
        Some(HolidayEventKind::Makeup)
    );
    assert_eq!(classify_event(Some(&tag_other), Some(&rest_summary)), None);
    assert_eq!(classify_event(None, Some(&rest_summary)), Some(HolidayEventKind::Rest));
    assert_eq!(classify_event(None, Some(&makeup_summary)), Some(HolidayEventKind::Makeup));
    assert_eq!(classify_event(None, Some(&plain_summary)), None);
    assert_eq!(classify_event(None, None), None);
}

#[test]
fn semester_snaps_to_the_monday_of_its_week() {
    // 2024-09-04 is a Wednesday; week one starts on Monday 2024-09-02.
    let semester = Semester::from_date_str("2024-09-04").unwrap();
    let monday = Instant::from_ymd_hms(2024, 9, 2, 0, 0, 0, 8 * 3600).unwrap();
    assert_eq!(semester.start_date, monday);
    assert_eq!(semester.year(), 2024);
    let week3 = semester.get_week_start(3);
    assert_eq!(week3.secs, monday.secs + 2 * 7 * 86400);
    assert!(Semester::from_date_str("2024-13-01").is_err());
    assert!(Semester::from_date_str("someday").is_err());
}

#[test]
fn escape_text_escapes_the_calendar_meta_characters() {
    let generator = IcsGenerator::new(IcsOptions::default());
    assert_eq!(
        generator.escape_text("a,b;c\\d\ne"),
        "a\\,b\\;c\\\\d\\ne"
    );
    assert_eq!(generator.escape_text("plain"), "plain");
}

#[test]
fn token_cache_keys_carry_the_token_prefix() {
    assert_eq!(CacheManager::<u32>::token_cache_key("alice"), "token:alice");
    let manager = CacheManager::new(7u32);
    assert_eq!(*manager.backend(), 7);
}

#[test]
fn context_holds_and_validates_its_value() {
    let mut ctx: Context<u32> = Context::new(5);
    assert!(ctx.is_some());
    assert!(!ctx.is_empty());
    assert_eq!(ctx.get(), &Some(5));
    assert_eq!(ctx.as_ref(), Some(&5));
    ctx.set(9);
    assert_eq!(ctx.as_mut().map(|v| *v), Some(9));
    *ctx.get_mut() = None;
    assert!(ctx.is_empty());
    assert!(ctx.ensure_valid().is_err());
    ctx.set(1);
    assert!(ctx.ensure_valid().is_ok());
    let empty: Context<u32> = Context::default();
    assert!(empty.is_empty());
}

#[test]
fn default_options_name_the_campus_calendar() {
    let options = IcsOptions::default();
    assert_eq!(options.calendar_name.as_deref(), Some("CQUPT课程表"));
    assert!(options.include_description);
    assert_eq!(options.reminder_minutes, Some(15));
}
