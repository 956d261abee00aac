use cqupt_ics::date::Instant;
use cqupt_ics::error::Error;
use cqupt_ics::ics::IcsGenerator;
use cqupt_ics::types::IcsOptions;

const TZ: i32 = 8 * 3600;

fn start_time() -> Instant {
    Instant::from_ymd_hms(2024, 9, 2, 10, 0, 0, TZ).unwrap()
}

#[test]
fn test_rrule_generation() {
    let generator = IcsGenerator::new(IcsOptions::default());
    let start_time = start_time();

    let weekss = vec![vec![1, 3, 5, 7, 9], vec![2, 4]];
    for weeks in weekss {
        let recurrence = generator
            .create_recurrence_rule(&weeks, 1, &start_time)
            .unwrap();
        assert_eq!(recurrence.frequency, "WEEKLY");
        assert_eq!(recurrence.interval, 2);
        assert!(recurrence.until.is_some());
        assert!(recurrence.count.is_none());
        assert_eq!(recurrence.by_day, Some(vec![1]));
        assert!(recurrence.exception_dates.is_empty());
    }

    let weeks = vec![1, 2, 4, 5, 7];
    let recurrence = generator
        .create_recurrence_rule(&weeks, 1, &start_time)
        .unwrap();
    assert_eq!(recurrence.frequency, "WEEKLY");
    assert_eq!(recurrence.interval, 1);
    assert!(recurrence.until.is_some());
    assert!(recurrence.count.is_none());
    assert_eq!(recurrence.by_day, Some(vec![1]));
    assert_eq!(recurrence.exception_dates.len(), 2);
}

#[test]
fn gap_weeks_become_exception_instants() {
    // Weeks three and six are missing from [1, 2, 4, 5, 7]: the exceptions
    // are their occurrence instants, two and five weeks past the start.
    let generator = IcsGenerator::new(IcsOptions::default());
    let start = start_time();
    let rule = generator
        .create_recurrence_rule(&vec![1, 2, 4, 5, 7], 1, &start)
        .unwrap();
    const WEEK: i64 = 7 * 86400;
    assert_eq!(rule.exception_dates.len(), 2);
    assert_eq!(rule.exception_dates[0].secs, start.secs + 2 * WEEK);
    assert_eq!(rule.exception_dates[1].secs, start.secs + 5 * WEEK);
    assert_eq!(rule.until.unwrap().secs, start.secs + 6 * WEEK);
}

#[test]
fn single_week_yields_interval_one_without_exceptions() {
    let generator = IcsGenerator::new(IcsOptions::default());
    let rule = generator
        .create_recurrence_rule(&vec![4], 3, &start_time())
        .unwrap();
    assert_eq!(rule.interval, 1);
    assert!(rule.exception_dates.is_empty());
    assert_eq!(rule.by_day, Some(vec![3]));
}

#[test]
fn empty_week_list_is_rejected() {
    let generator = IcsGenerator::new(IcsOptions::default());
    let result = generator.create_recurrence_rule(&vec![], 1, &start_time());
    match result {
        Err(Error::Config(message)) => assert_eq!(message, "Course has no week data"),
        _ => panic!("an empty week list must be rejected"),
    }
}

#[test]
fn synthesis_is_stable_under_re_pruning() {
    // Removing the off-weeks from an already-pruned list changes nothing, so
    // the synthesized recurrences agree.
    let generator = IcsGenerator::new(IcsOptions::default());
    let start = start_time();
    let weeks: Vec<u32> = vec![1, 2, 3, 4, 5, 6, 7, 8];
    let off: Vec<u32> = vec![3, 6];
    let pruned: Vec<u32> = weeks.iter().copied().filter(|w| !off.contains(w)).collect();
    let repruned: Vec<u32> = pruned.iter().copied().filter(|w| !off.contains(w)).collect();
    assert_eq!(pruned, repruned);
    let once = generator.create_recurrence_rule(&pruned, 1, &start).unwrap();
    let twice = generator.create_recurrence_rule(&repruned, 1, &start).unwrap();
    assert_eq!(once.interval, twice.interval);
    assert_eq!(once.until.map(|t| t.secs), twice.until.map(|t| t.secs));
    let once_secs: Vec<i64> = once.exception_dates.iter().map(|t| t.secs).collect();
    let twice_secs: Vec<i64> = twice.exception_dates.iter().map(|t| t.secs).collect();
    assert_eq!(once_secs, twice_secs);
}
