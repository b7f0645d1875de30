use chrono::{Datelike, NaiveDate, TimeZone, Timelike};
use optirust::fixtures::test_desired_meeting;
use optirust::gen::{
    generate_all_possible_meetings, generate_meetings_for_date, judge_slot, SlotError, SlotVerdict,
};
use optirust::time::{local_day, local_of_instant, local_time, weekday_of};
use optirust::types::{
    default_reject_date, default_reject_datetime, Config, DateRejector, DateTimeRejector,
    DesiredMeeting, HourRange, HourSpec,
};

fn local_seconds(y: i32, m: u32, d: u32, h: u32, min: u32) -> i64 {
    NaiveDate::from_ymd_opt(y, m, d)
        .unwrap()
        .and_hms_opt(h, min, 0)
        .unwrap()
        .and_utc()
        .timestamp()
}

fn los_angeles(y: i32, m: u32, d: u32, h: u32, min: u32) -> i64 {
    chrono_tz::America::Los_Angeles
        .with_ymd_and_hms(y, m, d, h, min, 0)
        .unwrap()
        .timestamp()
}

fn meeting(min_date: i64, max_date: i64, step: i64, duration: i64, zone: &str) -> DesiredMeeting {
    DesiredMeeting {
        title: "Weekly sync".to_string(),
        slug: "Weeklysync".to_string(),
        description: String::new(),
        attendees: vec!["a@x".to_string(), "b@x".to_string()],
        min_date,
        max_date,
        step,
        duration,
        timezone: zone.to_string(),
    }
}

fn config_with(days: Option<Vec<u32>>, hours: Option<Vec<HourRange>>) -> Config {
    Config {
        small_rooms: None,
        large_rooms: None,
        reject_iso_weekday: days,
        reject_hour_range: hours,
        ignore_all_day_events: true,
        ignore_meetings_with_no_response: true,
    }
}

#[test]
fn test_generate_interval() {
    let intervals = generate_all_possible_meetings(
        &test_desired_meeting().unwrap(),
        &DateRejector::Standard,
        &DateTimeRejector::Standard,
    )
    .unwrap();
    // from 11 am to 4 PM on Thursday and Friday, the Saturday is ignored
    // Removing the lunch both days: two slots in the morning, six in the
    // afternoon, on each of the two days.
    assert_eq!(intervals.len(), 16);
}

#[test]
fn single_meeting_thursday_to_friday() {
    // Thursday 8 February 2018 to Friday 9 February, 11:00 to 16:00.
    let tm = meeting(
        los_angeles(2018, 2, 8, 11, 0),
        los_angeles(2018, 2, 9, 16, 0),
        1800,
        1800,
        "America/Los_Angeles",
    );
    let slots =
        generate_all_possible_meetings(&tm, &DateRejector::Standard, &DateTimeRejector::Standard)
            .unwrap();
    assert_eq!(slots.len(), 16);
    assert_eq!(slots[0].id, "Weeklysync_0_0");
    assert_eq!(slots[0].start, los_angeles(2018, 2, 8, 11, 0));
    assert_eq!(slots[0].end, los_angeles(2018, 2, 8, 11, 30));
    assert_eq!(slots[1].id, "Weeklysync_0_1");
    assert_eq!(slots[1].start, los_angeles(2018, 2, 8, 11, 30));
    // The lunch hour is passed over; the numbering goes on without a gap.
    assert_eq!(slots[2].id, "Weeklysync_0_2");
    assert_eq!(slots[2].start, los_angeles(2018, 2, 8, 13, 0));
    assert_eq!(slots[7].id, "Weeklysync_0_7");
    assert_eq!(slots[7].end, los_angeles(2018, 2, 8, 16, 0));
    assert_eq!(slots[8].id, "Weeklysync_1_0");
    assert_eq!(slots[8].start, los_angeles(2018, 2, 9, 11, 0));
    assert_eq!(slots[15].end, los_angeles(2018, 2, 9, 16, 0));
}

#[test]
fn every_slot_lasts_as_long_as_the_meeting_and_lies_in_the_window() {
    let tm = meeting(
        los_angeles(2018, 2, 5, 9, 15),
        los_angeles(2018, 2, 16, 17, 45),
        900,
        2700,
        "America/Los_Angeles",
    );
    let slots =
        generate_all_possible_meetings(&tm, &DateRejector::Standard, &DateTimeRejector::Standard)
            .unwrap();
    assert!(!slots.is_empty());
    let lmin = local_of_instant("America/Los_Angeles", tm.min_date).unwrap();
    let lmax = local_of_instant("America/Los_Angeles", tm.max_date).unwrap();
    for s in &slots {
        assert_eq!(s.end - s.start, 2700);
        let ls = local_of_instant("America/Los_Angeles", s.start).unwrap();
        let le = local_of_instant("America/Los_Angeles", s.end).unwrap();
        assert!(lmin <= ls);
        assert!(le <= lmax);
        assert_eq!(local_day(ls), local_day(le));
        assert!(local_time(ls) >= local_time(lmin));
        assert!(local_time(le) <= local_time(lmax));
        assert!(!default_reject_date(local_day(ls)));
        assert!(!default_reject_datetime(ls, le));
    }
}

#[test]
fn wednesday_is_skipped_and_days_are_numbered_without_it() {
    // Tuesday 6 February 2018 to Thursday 8 February, 9:00 to 10:00.
    let tm = meeting(
        los_angeles(2018, 2, 6, 9, 0),
        los_angeles(2018, 2, 8, 10, 0),
        1800,
        1800,
        "America/Los_Angeles",
    );
    let slots =
        generate_all_possible_meetings(&tm, &DateRejector::Standard, &DateTimeRejector::Standard)
            .unwrap();
    let ids: Vec<&str> = slots.iter().map(|s| s.id.as_str()).collect();
    assert_eq!(
        ids,
        vec!["Weeklysync_0_0", "Weeklysync_0_1", "Weeklysync_1_0", "Weeklysync_1_1"]
    );
    assert_eq!(slots[2].start, los_angeles(2018, 2, 8, 9, 0));
}

#[test]
fn window_that_straddles_midnight_gives_no_slot() {
    // From 22:00 one day to 02:00 two days later: the latest end of a day
    // lies before its earliest start.
    let tm = meeting(
        los_angeles(2018, 2, 8, 22, 0),
        los_angeles(2018, 2, 9, 2, 0),
        1800,
        1800,
        "America/Los_Angeles",
    );
    let slots =
        generate_all_possible_meetings(&tm, &DateRejector::Standard, &DateTimeRejector::Standard)
            .unwrap();
    assert!(slots.is_empty());
}

#[test]
fn slots_stop_at_midnight() {
    // 23:00 to 23:45: the slot from 23:30 would end on the next day.
    let day = local_day(local_seconds(2018, 2, 8, 0, 0));
    let slots = generate_meetings_for_date(
        "UTC",
        day,
        23 * 3600,
        23 * 3600 + 45 * 60,
        1800,
        1800,
        "m_0",
        &DateTimeRejector::Standard,
    )
    .unwrap();
    assert_eq!(slots.len(), 1);
    assert_eq!(slots[0].start, local_seconds(2018, 2, 8, 23, 0));
    assert_eq!(slots[0].id, "m_0_0");
}

#[test]
fn step_and_duration_may_differ() {
    let day = local_day(local_seconds(2018, 2, 8, 0, 0));
    let slots = generate_meetings_for_date(
        "UTC",
        day,
        9 * 3600,
        11 * 3600,
        900,
        3600,
        "m_3",
        &DateTimeRejector::Standard,
    )
    .unwrap();
    // Starts at 9:00, 9:15, 9:30, 9:45 and 10:00; the next would end at 11:15.
    assert_eq!(slots.len(), 5);
    assert_eq!(slots[4].start, local_seconds(2018, 2, 8, 10, 0));
    assert_eq!(slots[4].end, local_seconds(2018, 2, 8, 11, 0));
    assert_eq!(slots[4].id, "m_3_4");
}

#[test]
fn day_whose_start_is_skipped_by_the_clocks_fails() {
    // On 11 March 2018 the clocks of Los Angeles went from 2:00 to 3:00.
    let day = local_day(local_seconds(2018, 3, 11, 0, 0));
    let r = generate_meetings_for_date(
        "America/Los_Angeles",
        day,
        2 * 3600 + 1800,
        5 * 3600,
        1800,
        1800,
        "m_0",
        &DateTimeRejector::Standard,
    );
    assert_eq!(r, Err(SlotError::NoDayStart));
}

#[test]
fn unknown_zone_fails() {
    let tm = meeting(
        los_angeles(2018, 2, 8, 11, 0),
        los_angeles(2018, 2, 9, 16, 0),
        1800,
        1800,
        "Mars/Olympus_Mons",
    );
    let r =
        generate_all_possible_meetings(&tm, &DateRejector::Standard, &DateTimeRejector::Standard);
    assert_eq!(r, Err(SlotError::NoLocalTime));
}

#[test]
fn non_positive_step_gives_no_slot() {
    let day = local_day(local_seconds(2018, 2, 8, 0, 0));
    let slots = generate_meetings_for_date(
        "UTC",
        day,
        9 * 3600,
        11 * 3600,
        0,
        1800,
        "m_0",
        &DateTimeRejector::Standard,
    )
    .unwrap();
    assert!(slots.is_empty());
}

#[test]
fn configured_weekdays_and_hours_are_left_free() {
    // Monday 5 February 2018 to Tuesday 6 February, 9:00 to 11:00; Mondays
    // are left free, and so is 9:30 to 10:00.
    let config = config_with(
        Some(vec![1]),
        Some(vec![HourRange {
            from: HourSpec { hours: 9, minutes: 30, seconds: 0 },
            to: HourSpec { hours: 10, minutes: 0, seconds: 0 },
        }]),
    );
    let tm = meeting(
        los_angeles(2018, 2, 5, 9, 0),
        los_angeles(2018, 2, 6, 11, 0),
        1800,
        1800,
        "America/Los_Angeles",
    );
    let slots = generate_all_possible_meetings(
        &tm,
        &DateRejector::FromConfig(config.clone()),
        &DateTimeRejector::FromConfig(config.clone()),
    )
    .unwrap();
    let starts: Vec<i64> = slots.iter().map(|s| s.start).collect();
    assert_eq!(
        starts,
        vec![
            los_angeles(2018, 2, 6, 9, 0),
            los_angeles(2018, 2, 6, 10, 0),
            los_angeles(2018, 2, 6, 10, 30)
        ]
    );
    for s in &slots {
        let ls = local_of_instant("America/Los_Angeles", s.start).unwrap();
        let le = local_of_instant("America/Los_Angeles", s.end).unwrap();
        assert!(!config.reject_date_fn(local_day(ls)));
        assert!(!config.reject_datetime_fn(ls, le));
    }
}

#[test]
fn verdicts_on_a_slot() {
    let day = local_day(local_seconds(2018, 2, 8, 0, 0));
    let at = |h: u32, m: u32| Some(local_seconds(2018, 2, 8, h, m));
    let hours = DateTimeRejector::Standard;
    let (lo, hi) = (9 * 3600, 17 * 3600);
    assert_eq!(judge_slot(&hours, day, lo, hi, at(9, 0), at(9, 30)), SlotVerdict::Emit);
    assert_eq!(judge_slot(&hours, day, lo, hi, at(16, 30), at(17, 0)), SlotVerdict::Emit);
    assert_eq!(judge_slot(&hours, day, lo, hi, at(16, 45), at(17, 15)), SlotVerdict::Stop);
    assert_eq!(judge_slot(&hours, day, lo, hi, at(12, 30), at(13, 0)), SlotVerdict::Skip);
    assert_eq!(judge_slot(&hours, day, lo, hi, at(8, 30), at(9, 0)), SlotVerdict::Skip);
    assert_eq!(judge_slot(&hours, day, lo, hi, None, at(9, 30)), SlotVerdict::Skip);
    assert_eq!(judge_slot(&hours, day, lo, hi, at(9, 0), None), SlotVerdict::Stop);
    let next_day = Some(local_seconds(2018, 2, 9, 0, 0));
    assert_eq!(judge_slot(&hours, day, lo, hi, at(16, 0), next_day), SlotVerdict::Stop);
}

#[test]
fn default_policies() {
    // 5 February 2018 was a Monday.
    let monday = local_day(local_seconds(2018, 2, 5, 0, 0));
    let rejected: Vec<bool> = (0..7).map(|k| default_reject_date(monday + k)).collect();
    assert_eq!(rejected, vec![false, false, true, false, false, true, true]);
    assert_eq!(weekday_of(monday), 1);
    assert_eq!(weekday_of(monday + 6), 7);
    assert_eq!(weekday_of(0), 4);
    assert_eq!(weekday_of(-1), 3);
    let at = |h: u32, m: u32| local_seconds(2018, 2, 8, h, m);
    assert!(!default_reject_datetime(at(11, 30), at(12, 0)));
    assert!(default_reject_datetime(at(11, 30), at(12, 1)));
    assert!(default_reject_datetime(at(12, 0), at(12, 30)));
    assert!(default_reject_datetime(at(12, 59), at(13, 30)));
    assert!(!default_reject_datetime(at(13, 0), at(13, 30)));
}

#[test]
fn wall_clock_of_an_instant() {
    // 18:00 UTC on 8 February 2018 is 10:00 in Los Angeles.
    let utc = local_seconds(2018, 2, 8, 18, 0);
    let local = local_of_instant("America/Los_Angeles", utc).unwrap();
    assert_eq!(local, local_seconds(2018, 2, 8, 10, 0));
    assert_eq!(local_time(local), 10 * 3600);
    let date = chrono::DateTime::from_timestamp(local, 0).unwrap();
    assert_eq!((date.year(), date.month(), date.day(), date.hour()), (2018, 2, 8, 10));
    // In July the offset is seven hours.
    let summer = local_seconds(2018, 7, 8, 18, 0);
    assert_eq!(
        local_of_instant("America/Los_Angeles", summer).unwrap(),
        local_seconds(2018, 7, 8, 11, 0)
    );
    assert_eq!(local_of_instant("Nowhere/Special", utc), None);
    assert_eq!(local_day(-1), -1);
    assert_eq!(local_time(-1), 86_399);
}
