use chrono::{NaiveDateTime, Timelike};
use optirust::fixtures::{
    test_config, test_desired_meeting, test_desired_meetings, test_input, test_invalid_input,
    test_written_meetings,
};
use optirust::input::{
    desired_meetings_from_input, has_distinct_slugs, InputDesiredMeeting, InputError,
};
use optirust::types::DesiredMeeting;

fn text(v: &serde_yaml::Value, key: &str) -> String {
    v.get(key).unwrap().as_str().unwrap().to_string()
}

fn wall_clock(v: &serde_yaml::Value, key: &str) -> i64 {
    NaiveDateTime::parse_from_str(&text(v, key), "%Y-%m-%dT%H:%M:%S")
        .unwrap()
        .and_utc()
        .timestamp()
}

fn written(document: &str) -> Vec<InputDesiredMeeting> {
    let doc: serde_yaml::Value = serde_yaml::from_str(document).unwrap();
    doc.as_sequence()
        .unwrap()
        .iter()
        .map(|m| InputDesiredMeeting {
            title: text(m, "title"),
            description: text(m, "description"),
            attendees: m
                .get("attendees")
                .unwrap()
                .as_sequence()
                .unwrap()
                .iter()
                .map(|a| a.as_str().unwrap().to_string())
                .collect(),
            min_date: wall_clock(m, "min_date"),
            max_date: wall_clock(m, "max_date"),
            step: m.get("step").map(|s| s.as_i64().unwrap()),
            duration: m.get("duration").map(|s| s.as_i64().unwrap()),
            timezone: m.get("timezone").map(|s| s.as_str().unwrap().to_string()),
        })
        .collect()
}

fn hour_utc(instant: i64) -> u32 {
    chrono::DateTime::from_timestamp(instant, 0).unwrap().hour()
}

fn one(title: &str, min_date: i64, max_date: i64) -> InputDesiredMeeting {
    InputDesiredMeeting {
        title: title.to_string(),
        description: "about".to_string(),
        attendees: vec!["a@x".to_string()],
        min_date,
        max_date,
        step: None,
        duration: None,
        timezone: None,
    }
}

// 8 February 2018, 10:00 and 18:00 on the wall clock.
const MORNING: i64 = 1_518_084_000;
const EVENING: i64 = 1_518_112_800;

#[test]
#[should_panic]
fn panic_two_desired_meeting_same_title() {
    desired_meetings_from_input(&written(&test_invalid_input())).unwrap();
}

#[test]
fn two_meetings_with_the_same_title_are_rejected() {
    assert_eq!(
        desired_meetings_from_input(&written(&test_invalid_input())),
        Err(InputError::DuplicateSlug)
    );
    // Titles that differ only in what a slug leaves out have the same slug.
    let input = vec![one("Foo", MORNING, EVENING), one("F o-o!", MORNING, EVENING)];
    assert_eq!(desired_meetings_from_input(&input), Err(InputError::DuplicateSlug));
    let input = vec![one("Foo", MORNING, EVENING), one("Foo2", MORNING, EVENING)];
    let ms = desired_meetings_from_input(&input).unwrap();
    assert!(has_distinct_slugs(&ms));
    let twice = vec![ms[0].clone(), ms[1].clone(), ms[0].clone()];
    assert!(!has_distinct_slugs(&twice));
    assert!(has_distinct_slugs(&vec![]));
}

#[test]
fn can_build_input() {
    let a = desired_meetings_from_input(&written(&test_input())).unwrap();
    assert_eq!(a[0].title, "title");
    assert_eq!(a[0].description, "description");
    assert_eq!(a[0].attendees[0], "laurent.charignon@foo.com");
    assert_eq!(a[0].timezone, "America/Los_Angeles");
    // 10 PST -> 18 UTC
    // 18 PST -> 2 UTC
    assert_eq!(hour_utc(a[0].min_date), 18);
    assert_eq!(hour_utc(a[0].max_date), 2);
}

#[test]
fn sample_meetings_are_those_of_the_sample_document() {
    assert_eq!(test_written_meetings(), written(&test_input()));
    let a = test_desired_meetings().unwrap();
    assert_eq!(a, desired_meetings_from_input(&written(&test_input())).unwrap());
    assert_eq!(a.len(), 2);
    assert_eq!(test_desired_meeting().unwrap(), a[1]);
    assert_eq!(a[1].title, "title2");
    assert_eq!(a[1].slug, "title2");
    assert_eq!(a[1].description, "description 2");
    assert_eq!(
        a[1].attendees,
        vec!["laurent.charignon@foo.com".to_string(), "contact@laurent.com".to_string()]
    );
    // Half an hour is the step and the duration where none is written.
    assert_eq!((a[1].step, a[1].duration), (1800, 1800));
    // 11:00 in Los Angeles in February is 19:00 UTC.
    assert_eq!(a[1].min_date, 1_518_087_600 + 8 * 3600);
    assert_eq!(a[1].max_date, 1_518_278_400 + 8 * 3600);
}

#[test]
fn sample_configuration_names_the_rooms() {
    let doc: serde_yaml::Value = serde_yaml::from_str(&test_config()).unwrap();
    let large = doc.get("large_rooms").unwrap().as_sequence().unwrap();
    assert_eq!(large[0].as_str().unwrap(), "bozorg@jam.com");
    let small = doc.get("small_rooms").unwrap().as_sequence().unwrap();
    assert_eq!(small.len(), 2);
}

#[test]
fn step_duration_and_zone_as_written() {
    let mut m = one("Quarterly", MORNING, EVENING);
    m.step = Some(15);
    m.duration = Some(90);
    m.timezone = Some("Europe/Paris".to_string());
    let d = DesiredMeeting::from_input_desired_meeting(&m).unwrap();
    assert_eq!((d.step, d.duration), (900, 5400));
    assert_eq!(d.timezone, "Europe/Paris");
    // 10:00 in Paris in February is 9:00 UTC.
    assert_eq!(d.min_date, MORNING - 3600);
    assert_eq!(d.max_date, EVENING - 3600);
    assert_eq!(d.slug, "Quarterly");
    assert_eq!(d.attendees, vec!["a@x".to_string()]);
}

#[test]
fn what_is_wrong_with_a_written_meeting() {
    let convert = |m: &InputDesiredMeeting| DesiredMeeting::from_input_desired_meeting(m);

    let mut m = one("T", MORNING, EVENING);
    m.timezone = Some("Middle/Earth".to_string());
    assert_eq!(convert(&m), Err(InputError::UnknownTimezone));

    for (step, duration) in [
        (Some(0), None),
        (None, Some(0)),
        (Some(-30), None),
        (None, Some(-1)),
        (Some(i64::MAX / 60 + 1), None),
    ] {
        let mut m = one("T", MORNING, EVENING);
        m.step = step;
        m.duration = duration;
        assert_eq!(convert(&m), Err(InputError::BadLength));
    }
    let mut m = one("T", MORNING, EVENING);
    m.step = Some(i64::MAX / 60);
    assert_eq!(convert(&m).unwrap().step, i64::MAX / 60 * 60);

    // The window ends before it starts.
    assert_eq!(convert(&one("T", EVENING, MORNING)), Err(InputError::MinAfterMax));
    assert!(convert(&one("T", MORNING, MORNING)).is_ok());

    // On 11 March 2018 the clocks of Los Angeles skipped 2:00 to 3:00, and
    // on 4 November they showed 1:00 to 2:00 twice.
    let skipped = 1_520_735_400; // 2018-03-11T02:30:00
    let twice = 1_541_295_000; // 2018-11-04T01:30:00
    assert_eq!(convert(&one("T", skipped, skipped + 86_400)), Err(InputError::NoLocalTime));
    assert_eq!(convert(&one("T", MORNING, twice)), Err(InputError::NoLocalTime));

    // The first meeting that has something wrong decides.
    let mut bad_zone = one("B", MORNING, EVENING);
    bad_zone.timezone = Some("Middle/Earth".to_string());
    let input = vec![one("A", MORNING, EVENING), one("C", EVENING, MORNING), bad_zone];
    assert_eq!(desired_meetings_from_input(&input), Err(InputError::MinAfterMax));
    assert_eq!(desired_meetings_from_input(&vec![]), Ok(vec![]));
}
