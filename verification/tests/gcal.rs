use bio::data_structures::interval_tree::IntervalTree;
use optirust::gcal::{
    all_day_meeting, availability_from, booking_events, busy_meetings, busy_tree,
    candidate_and_meeting_to_event, meetings_to_tree, timed_meeting, valid_api_meeting, Event,
    EventAttendee, EventDateTime, EventError,
};
use optirust::strmap::StrMap;
use optirust::types::{Assignment, Solution};
use optirust::tree::{count_overlaps, find_overlapping, MeetingsTree};
use optirust::types::{DesiredMeeting, Meeting, MeetingCandidate};

fn at(text: &str) -> Option<EventDateTime> {
    Some(EventDateTime { date_time: Some(text.to_string()), date: None })
}

fn on(text: &str) -> Option<EventDateTime> {
    Some(EventDateTime { date_time: None, date: Some(text.to_string()) })
}

fn guest(email: &str, status: &str) -> EventAttendee {
    EventAttendee { email: Some(email.to_string()), response_status: Some(status.to_string()) }
}

fn event(
    id: &str,
    start: Option<EventDateTime>,
    end: Option<EventDateTime>,
    attendees: Option<Vec<EventAttendee>>,
) -> Event {
    Event {
        id: Some(id.to_string()),
        start,
        end,
        attendees,
        summary: None,
        description: None,
        use_default_reminders: None,
    }
}

fn timed(id: &str, attendees: Option<Vec<EventAttendee>>) -> Event {
    event(id, at("2018-02-08T14:00:00-08:00"), at("2018-02-08T14:45:00-08:00"), attendees)
}

// 2018-02-08T22:00:00Z
const TWO_PM: i64 = 1_518_127_200;

#[test]
fn which_events_make_a_person_busy() {
    let me = "me@x";
    let valid = |e: &Event, all_day: bool, no_response: bool| {
        valid_api_meeting(me, e, all_day, no_response)
    };
    // Without a list of attendees the bounds decide.
    assert_eq!(valid(&timed("e", None), true, true), Ok(true));
    let whole_day = event("e", on("2018-02-08"), on("2018-02-09"), None);
    assert_eq!(valid(&whole_day, true, true), Ok(false));
    assert_eq!(valid(&whole_day, false, true), Ok(true));
    let half = event("e", at("2018-02-08T14:00:00-08:00"), on("2018-02-09"), None);
    assert_eq!(valid(&half, false, false), Ok(false));
    let bare = event(
        "e",
        Some(EventDateTime { date_time: None, date: None }),
        Some(EventDateTime { date_time: None, date: None }),
        None,
    );
    assert_eq!(valid(&bare, false, false), Ok(false));

    // What the person answered.
    for (status, ignore, expected) in [
        ("tentative", true, true),
        ("accepted", true, true),
        ("declined", true, false),
        ("needsAction", true, false),
        ("tentative", false, true),
        ("accepted", false, true),
        ("declined", false, true),
        ("needsAction", false, true),
    ] {
        let e = timed("e", Some(vec![guest("you@x", "declined"), guest(me, status)]));
        assert_eq!(valid(&e, true, ignore), Ok(expected), "{} {}", status, ignore);
    }
    // The person is not invited, or twice.
    assert_eq!(valid(&timed("e", Some(vec![guest("you@x", "accepted")])), true, true), Ok(false));
    assert_eq!(valid(&timed("e", Some(vec![])), true, false), Ok(false));
    let twice = timed("e", Some(vec![guest(me, "accepted"), guest(me, "accepted")]));
    assert_eq!(valid(&twice, true, true), Ok(false));
    // An attendee without an address counts for the name XXX.
    let nameless = EventAttendee { email: None, response_status: Some("accepted".to_string()) };
    let e = timed("e", Some(vec![nameless]));
    assert_eq!(valid_api_meeting("XXX", &e, true, true), Ok(true));
    assert_eq!(valid(&e, true, true), Ok(false));

    // What cannot be read.
    assert_eq!(valid(&event("e", None, at("x"), None), true, true), Err(EventError::Malformed));
    assert_eq!(valid(&event("e", at("x"), None, None), true, true), Err(EventError::Malformed));
    let silent = EventAttendee { email: Some(me.to_string()), response_status: None };
    let e = timed("e", Some(vec![guest(me, "accepted"), silent]));
    assert_eq!(valid(&e, true, true), Err(EventError::Malformed));
    let other_silent = EventAttendee { email: Some("you@x".to_string()), response_status: None };
    let e = timed("e", Some(vec![guest(me, "accepted"), other_silent]));
    assert_eq!(valid(&e, true, true), Ok(true));
}

#[test]
fn meeting_of_an_event() {
    let m = Meeting::from_api(&timed("abc", None), "Europe/Paris").unwrap();
    assert_eq!(m, Meeting { id: "abc".to_string(), start: TWO_PM, end: TWO_PM + 2700 });
    assert_eq!(
        timed_meeting("abc", "2018-02-08T22:00:00Z", "2018-02-08T23:00:00.75+00:00"),
        Ok(Meeting { id: "abc".to_string(), start: TWO_PM, end: TWO_PM + 3600 })
    );
    assert_eq!(timed_meeting("abc", "2018-02-08 22:00", "2018-02-08T23:00:00Z"), Err(EventError::BadDate));
    assert_eq!(timed_meeting("abc", "2018-02-08T22:00:00Z", ""), Err(EventError::BadDate));

    // A whole day runs from midnight to midnight on the calendar's clock.
    let e = event("day", on("2018-02-08"), on("2018-02-09"), None);
    let m = Meeting::from_api(&e, "America/Los_Angeles").unwrap();
    // Midnight in Los Angeles on 8 February 2018 is 8:00 UTC.
    assert_eq!(m, Meeting { id: "day".to_string(), start: 1_518_076_800, end: 1_518_163_200 });
    let m = Meeting::from_api(&e, "UTC").unwrap();
    assert_eq!((m.start, m.end), (1_518_048_000, 1_518_134_400));
    assert_eq!(
        all_day_meeting("day", "2018-02-08", "2018-02-09", "UTC"),
        Ok(Meeting { id: "day".to_string(), start: 1_518_048_000, end: 1_518_134_400 })
    );
    assert_eq!(all_day_meeting("day", "08/02/2018", "2018-02-09", "UTC"), Err(EventError::BadDate));
    assert_eq!(all_day_meeting("day", "2018-02-08", "2018-02-30", "UTC"), Err(EventError::BadDate));
    assert_eq!(
        all_day_meeting("day", "2018-02-08", "2018-02-09", "No/Such_Zone"),
        Err(EventError::NoLocalTime)
    );
    // In Sao Paulo the clocks skipped midnight on 4 November 2018.
    assert_eq!(
        all_day_meeting("day", "2018-11-03", "2018-11-04", "America/Sao_Paulo"),
        Err(EventError::NoLocalTime)
    );

    let mut no_id = timed("x", None);
    no_id.id = None;
    assert_eq!(Meeting::from_api(&no_id, "UTC"), Err(EventError::Malformed));
    let no_end = event("x", at("2018-02-08T22:00:00Z"), on("2018-02-09"), None);
    assert_eq!(Meeting::from_api(&no_end, "UTC"), Err(EventError::Malformed));
    let no_date = event("x", on("2018-02-08"), at("2018-02-08T22:00:00Z"), None);
    assert_eq!(Meeting::from_api(&no_date, "UTC"), Err(EventError::Malformed));
    assert_eq!(Meeting::from_api(&event("x", None, None, None), "UTC"), Err(EventError::Malformed));
}

#[test]
fn busy_meetings_of_a_calendar() {
    let me = "me@x";
    let events = vec![
        timed("kept", Some(vec![guest(me, "accepted")])),
        timed("declined", Some(vec![guest(me, "declined")])),
        event("day", on("2018-02-08"), on("2018-02-09"), None),
        event("later", at("2018-02-08T23:00:00Z"), at("2018-02-08T23:30:00Z"), None),
    ];
    let ids = |all_day: bool, no_response: bool| -> Vec<String> {
        busy_meetings(me, &events, "UTC", all_day, no_response)
            .unwrap()
            .into_iter()
            .map(|m| m.id)
            .collect()
    };
    assert_eq!(ids(true, true), vec!["kept", "later"]);
    assert_eq!(ids(true, false), vec!["kept", "declined", "later"]);
    assert_eq!(ids(false, true), vec!["kept", "day", "later"]);
    assert_eq!(ids(false, false), vec!["kept", "declined", "day", "later"]);

    let tree = busy_tree(me, &events, "UTC", true, true).unwrap();
    assert_eq!(count_overlaps(&tree, TWO_PM, TWO_PM + 1), 1);
    assert_eq!(count_overlaps(&tree, TWO_PM + 2700, TWO_PM + 3600), 0);
    assert_eq!(count_overlaps(&tree, TWO_PM, TWO_PM + 7200), 2);
    let tree = busy_tree(me, &events, "UTC", false, false).unwrap();
    assert_eq!(count_overlaps(&tree, TWO_PM, TWO_PM + 1), 3);

    let reversed = vec![event("r", at("2018-02-08T23:00:00Z"), at("2018-02-08T22:00:00Z"), None)];
    assert_eq!(busy_meetings(me, &reversed, "UTC", true, true), Err(EventError::Reversed));
    assert!(busy_tree(me, &reversed, "UTC", true, true).is_err());
    let unreadable = vec![timed("ok", None), event("bad", at("yesterday"), at("today"), None)];
    assert_eq!(busy_meetings(me, &unreadable, "UTC", true, true), Err(EventError::BadDate));
    let malformed = vec![event("bad", None, None, None), timed("ok", None)];
    assert_eq!(busy_meetings(me, &malformed, "UTC", true, true), Err(EventError::Malformed));
    assert_eq!(
        busy_meetings(me, &events, "Pangaea/Central", true, true),
        Err(EventError::UnknownZone)
    );
    assert_eq!(busy_meetings(me, &vec![], "Pangaea/Central", true, true), Err(EventError::UnknownZone));
    assert_eq!(busy_meetings(me, &vec![], "Asia/Tokyo", true, true), Ok(vec![]));
    // An event that is left out is not read.
    let left_out = vec![event("day", on("never"), on("never"), None)];
    assert_eq!(busy_meetings(me, &left_out, "UTC", true, true), Ok(vec![]));
    assert_eq!(busy_meetings(me, &left_out, "UTC", false, true), Err(EventError::BadDate));
}

#[test]
fn interval_index() {
    let mut t: MeetingsTree = IntervalTree::new();
    assert_eq!(count_overlaps(&t, i64::MIN, i64::MAX), 0);
    t.insert(10..20, "a".to_string());
    t.insert(10..20, "a".to_string());
    t.insert(15..30, "b".to_string());
    t.insert(40..40, "empty".to_string());
    t.insert(-5..0, "c".to_string());
    assert_eq!(count_overlaps(&t, i64::MIN, i64::MAX), 4);
    assert_eq!(count_overlaps(&t, 0, 10), 0);
    assert_eq!(count_overlaps(&t, 20, 30), 1);
    assert_eq!(count_overlaps(&t, 19, 20), 3);
    assert_eq!(count_overlaps(&t, 12, 12), 0);
    assert_eq!(count_overlaps(&t, 39, 41), 0);
    assert_eq!(count_overlaps(&t, -1, 11), 3);
    let mut found = find_overlapping(&t, 19, 21);
    found.sort();
    assert_eq!(
        found,
        vec![(10, 20, "a".to_string()), (10, 20, "a".to_string()), (15, 30, "b".to_string())]
    );
    let mut found = find_overlapping(&t, -100, 1);
    found.sort();
    assert_eq!(found, vec![(-5, 0, "c".to_string())]);

    let meetings = vec![
        Meeting { id: "x".to_string(), start: 0, end: 10 },
        Meeting { id: "y".to_string(), start: 5, end: 6 },
    ];
    let t = meetings_to_tree(&meetings);
    let mut found = find_overlapping(&t, 5, 6);
    found.sort();
    assert_eq!(found, vec![(0, 10, "x".to_string()), (5, 6, "y".to_string())]);
    assert_eq!(count_overlaps(&meetings_to_tree(&vec![]), 0, 100), 0);
}

#[test]
fn store_of_calendars() {
    let tree_with = |n: i64| {
        let mut t: MeetingsTree = IntervalTree::new();
        for k in 0..n {
            t.insert(k..k + 1, "m".to_string());
        }
        t
    };
    let people = vec!["a@x".to_string(), "b@x".to_string(), "a@x".to_string()];
    let store = availability_from(people, vec![tree_with(1), tree_with(2), tree_with(3)]);
    assert_eq!(store.len(), 2);
    assert_eq!(count_overlaps(store.get("a@x").unwrap(), 0, 10), 3);
    assert_eq!(count_overlaps(store.get("b@x").unwrap(), 0, 10), 2);
    assert!(store.get("c@x").is_none());
    assert_eq!(availability_from(vec![], vec![]).len(), 0);
    // A name without a calendar, or a calendar without a name, is left out.
    let store = availability_from(vec!["a@x".to_string(), "b@x".to_string()], vec![tree_with(1)]);
    assert_eq!(store.keys, vec!["a@x".to_string()]);
    let store = availability_from(vec!["a@x".to_string()], vec![tree_with(4), tree_with(1)]);
    assert_eq!(store.len(), 1);
    assert_eq!(count_overlaps(store.get("a@x").unwrap(), 0, 10), 4);
}

#[test]
fn events_that_book_a_solution() {
    let desired = |title: &str| DesiredMeeting {
        title: title.to_string(),
        slug: title.to_string(),
        description: format!("about {}", title),
        attendees: vec!["a@x".to_string()],
        min_date: TWO_PM,
        max_date: TWO_PM + 86_400,
        step: 1800,
        duration: 1800,
        timezone: "UTC".to_string(),
    };
    let candidate = |title: &str, start: i64| MeetingCandidate {
        title: title.to_string(),
        id: format!("{}_0_0", title),
        start,
        end: start + 1800,
        room: None,
        score: 1,
    };
    let mut assignment: Assignment = StrMap::new();
    assignment.insert("one".to_string(), (desired("one"), candidate("one", TWO_PM)));
    assignment.insert("two".to_string(), (desired("two"), candidate("two", TWO_PM + 3600)));
    let solution = Solution { solved: true, candidates: assignment };
    let events = booking_events(&solution, false);
    assert_eq!(events.len(), 2);
    assert_eq!(
        events[0],
        candidate_and_meeting_to_event(&desired("one"), &candidate("one", TWO_PM), false)
    );
    assert_eq!(events[1].summary, Some("two".to_string()));
    assert_eq!(events[1].description, Some("about two".to_string()));
    assert_eq!(events[1].start, at("2018-02-08T23:00:00+00:00"));
    let none = Solution { solved: false, candidates: StrMap::new() };
    assert!(booking_events(&none, true).is_empty());
}

#[test]
fn event_that_books_a_candidate() {
    let desired = DesiredMeeting {
        title: "Design review".to_string(),
        slug: "Designreview".to_string(),
        description: "Look at the plan".to_string(),
        attendees: vec!["a@x".to_string(), "b@x".to_string()],
        min_date: TWO_PM,
        max_date: TWO_PM + 86_400,
        step: 1800,
        duration: 1800,
        timezone: "UTC".to_string(),
    };
    let mut candidate = MeetingCandidate {
        title: "Design review".to_string(),
        id: "Designreview_0_0".to_string(),
        start: TWO_PM,
        end: TWO_PM + 1800,
        room: Some("room@x".to_string()),
        score: 1,
    };
    let e = candidate_and_meeting_to_event(&desired, &candidate, true);
    assert_eq!(
        e,
        Event {
            id: None,
            start: at("2018-02-08T22:00:00+00:00"),
            end: at("2018-02-08T22:30:00+00:00"),
            attendees: Some(vec![
                guest("a@x", "needsAction"),
                guest("b@x", "needsAction"),
                guest("room@x", "needsAction")
            ]),
            summary: Some("Design review".to_string()),
            description: Some(
                "Look at the plan\n=> Booked by Optirust: https://github.com/charignon/optirust"
                    .to_string()
            ),
            use_default_reminders: Some(true),
        }
    );
    candidate.room = None;
    let e = candidate_and_meeting_to_event(&desired, &candidate, false);
    assert_eq!(e.attendees, Some(vec![guest("a@x", "needsAction"), guest("b@x", "needsAction")]));
    assert_eq!(e.description, Some("Look at the plan".to_string()));
    // The event that was booked is read back as the candidate's interval.
    let mut booked = candidate_and_meeting_to_event(&desired, &candidate, false);
    booked.id = Some("booked".to_string());
    let m = Meeting::from_api(&booked, "UTC").unwrap();
    assert_eq!((m.start, m.end), (candidate.start, candidate.end));
    // An instant that no calendar date stands for has no text.
    candidate.end = i64::MAX;
    let e = candidate_and_meeting_to_event(&desired, &candidate, false);
    assert_eq!(e.end, Some(EventDateTime { date_time: None, date: None }));
}
