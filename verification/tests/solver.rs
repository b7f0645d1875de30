use bio::data_structures::interval_tree::IntervalTree;
use chrono::TimeZone;
use optirust::candidate::{
    check_all_free, compute_score, find_free_room, generate_meeting_candidate,
};
use optirust::conflict::build_intersections_pairs;
use optirust::fixtures::{
    fetch_results, sample_candidate_a, sample_candidate_b, sample_cbc_solution,
    test_desired_meetings,
};
use optirust::gen::SlotError;
use optirust::solution::read_cbc_solver_solution;
use optirust::solver::{add_candidate, extract_attendees, is_ready, SolverInput};
use optirust::strmap::StrMap;
use optirust::tree::MeetingsTree;
use optirust::types::{
    Assignment, Availability, Config, DesiredMeeting, Meeting, MeetingCandidate, Options,
    RoomPicker, Solution,
};

fn los_angeles(y: i32, m: u32, d: u32, h: u32, min: u32) -> i64 {
    chrono_tz::America::Los_Angeles
        .with_ymd_and_hms(y, m, d, h, min, 0)
        .unwrap()
        .timestamp()
}

fn names(v: &[&str]) -> Vec<String> {
    v.iter().map(|s| s.to_string()).collect()
}

fn calendars(people: &[(&str, Vec<(i64, i64)>)]) -> Availability {
    let mut store: Availability = StrMap::new();
    for (who, busy) in people {
        let mut tree: MeetingsTree = IntervalTree::new();
        for (k, (from, to)) in busy.iter().enumerate() {
            tree.insert(*from..*to, format!("{}", k));
        }
        store.insert(who.to_string(), tree);
    }
    store
}

fn meeting(title: &str, attendees: &[&str], min_date: i64, max_date: i64) -> DesiredMeeting {
    DesiredMeeting {
        title: title.to_string(),
        slug: optirust::types::to_slug(title),
        description: String::new(),
        attendees: names(attendees),
        min_date,
        max_date,
        step: 1800,
        duration: 1800,
        timezone: "America/Los_Angeles".to_string(),
    }
}

fn candidate(title: &str, id: &str, start: i64, end: i64, score: u64) -> MeetingCandidate {
    MeetingCandidate {
        title: title.to_string(),
        id: id.to_string(),
        start,
        end,
        room: None,
        score,
    }
}

fn pair(a: &str, b: &str) -> (String, String) {
    (a.to_string(), b.to_string())
}

#[test]
fn test_new_from_desired_meetings_and_opts() {
    // Create options and fake fetcher
    // Create a desired meetings
    let desired_meetings = test_desired_meetings().unwrap();
    let options = Options {
        room_picker_fn: RoomPicker::Fixed(vec!["room@bar.html".to_string()]),
        ..Default::default()
    };
    let emails = extract_attendees(&desired_meetings, &options.room_picker_fn);
    let avail = fetch_results(emails);
    let k = SolverInput::new_from_desired_meetings_and_opts(
        desired_meetings.clone(),
        &options,
        &avail,
    )
    .unwrap();
    // The fetch fn we use returns one meeting for laurent.charignon@foo.com
    // that is taking place from 2018-02-08 14:00:00 to 2018-02-08 14:45:00
    // the desired meetings of the solver input should be the same as the one we passed in
    assert_eq!(k.desired_meetings, desired_meetings);

    // The candidates map should contain 124 candidates
    // The first meeting has 8 days from 10 to 6, that's 110 meetings
    // => 7 hour bookable per day, 2 meetings per hour, so 14 meetings per day x 8 = 112
    // - the one scheduled meeting spanning across two slots = 110
    // The second one has 2 days from 11 to 4, that's 14 meetings
    // => 4 hour bookable per day, 2 meetings per hour, so 8 meetings per day x 2 = 16
    // - the one scheduled meeting spanning across two slots = 14

    assert_eq!(k.candidate_per_desired_meeting.get("title").unwrap().len(), 110);
    assert_eq!(k.candidate_per_desired_meeting.get("title2").unwrap().len(), 14);
    assert_eq!(k.candidates.len(), 124);
    // 14 intersections because only the first two days overlap
    assert_eq!(k.intersections.len(), 14);
}

#[test]
fn candidates_avoid_busy_attendees_and_take_the_free_room() {
    let desired_meetings = test_desired_meetings().unwrap();
    let options = Options {
        room_picker_fn: RoomPicker::Fixed(vec!["room@bar.html".to_string()]),
        ..Default::default()
    };
    let avail = fetch_results(extract_attendees(&desired_meetings, &options.room_picker_fn));
    let k = SolverInput::new_from_desired_meetings_and_opts(
        desired_meetings.clone(),
        &options,
        &avail,
    )
    .unwrap();
    let busy_from = los_angeles(2018, 2, 8, 14, 0);
    let busy_to = los_angeles(2018, 2, 8, 14, 45);
    for i in 0..k.candidates.len() {
        let key = &k.candidates.keys[i];
        let c = &k.candidates.vals[i];
        assert_eq!(&c.id, key);
        assert_eq!(c.end - c.start, 1800);
        assert!(c.end <= busy_from || busy_to <= c.start);
        assert_eq!(c.room, Some("room@bar.html".to_string()));
        let m = desired_meetings.iter().find(|m| m.title == c.title).unwrap();
        assert!(m.min_date <= c.start && c.end <= m.max_date);
        assert!(check_all_free(&avail, &m.attendees, c.start, c.end));
        assert!(k
            .candidate_per_desired_meeting
            .get(c.title.as_str())
            .unwrap()
            .contains(key));
    }
    for (a, b) in &k.intersections {
        assert!(a < b);
        let x = k.candidates.get(a).unwrap();
        let y = k.candidates.get(b).unwrap();
        assert!(x.start < y.end && y.start < x.end);
    }
}

#[test]
fn scores_reward_slots_near_booked_meetings() {
    let desired_meetings = test_desired_meetings().unwrap();
    let options = Options::default();
    let avail = fetch_results(extract_attendees(&desired_meetings, &options.room_picker_fn));
    let k = SolverInput::new_from_desired_meetings_and_opts(
        desired_meetings.clone(),
        &options,
        &avail,
    )
    .unwrap();
    let score_at = |h: u32, m: u32| {
        let start = los_angeles(2018, 2, 8, h, m);
        k.candidates.vals.iter().find(|c| c.title == "title" && c.start == start).unwrap().score
    };
    // The booked meeting runs from 14:00 to 14:45.
    // The slot that ends when it starts lies within a quarter of an hour.
    assert_eq!(score_at(13, 30), 1021);
    // The slot that starts a quarter of an hour after it lies within half
    // an hour, and so on.
    assert_eq!(score_at(15, 0), 421);
    assert_eq!(score_at(13, 0), 121);
    assert_eq!(score_at(15, 30), 121);
    assert_eq!(score_at(16, 0), 21);
    assert_eq!(score_at(16, 30), 21);
    assert_eq!(score_at(17, 0), 1);
    assert_eq!(score_at(11, 30), 1);
    assert_eq!(score_at(10, 0), 1);
    // Without a room picker no candidate has a room.
    assert!(k.candidates.vals.iter().all(|c| c.room.is_none()));
}

#[test]
fn score_counts_each_attendee_and_each_window() {
    let t = los_angeles(2018, 2, 8, 10, 0);
    let avail = calendars(&[
        ("a@x", vec![(t - 3600, t - 1800), (t + 1800 + 5400, t + 1800 + 7200)]),
        ("b@x", vec![(t - 600, t - 300)]),
        ("c@x", vec![]),
    ]);
    // a: one meeting ends half an hour before the slot (within one and two
    // hours: 120), another starts an hour and a half after it (within two
    // hours: 20). b: one meeting ends five minutes before (1020).
    assert_eq!(compute_score(t, t + 1800, &names(&["a@x"]), &avail), 1 + 120 + 20);
    assert_eq!(compute_score(t, t + 1800, &names(&["b@x"]), &avail), 1 + 1020);
    assert_eq!(compute_score(t, t + 1800, &names(&["c@x"]), &avail), 1);
    assert_eq!(compute_score(t, t + 1800, &names(&[]), &avail), 1);
    assert_eq!(
        compute_score(t, t + 1800, &names(&["a@x", "b@x", "c@x"]), &avail),
        1 + 140 + 1020
    );
    // Near the ends of the range the windows are cut, not wrapped.
    assert_eq!(compute_score(i64::MIN, i64::MIN + 10, &names(&["c@x"]), &avail), 1);
    assert_eq!(compute_score(i64::MAX - 10, i64::MAX, &names(&["a@x"]), &avail), 1);
}

#[test]
fn candidate_for_a_slot() {
    let t = los_angeles(2018, 2, 8, 10, 0);
    let avail = calendars(&[
        ("a@x", vec![(t - 1800, t)]),
        ("b@x", vec![]),
        ("small@x", vec![(t, t + 900)]),
        ("large@x", vec![]),
    ]);
    let tm = meeting("Sync", &["a@x", "b@x"], t - 86_400, t + 86_400);
    let free = Meeting { id: "Sync_0_0".to_string(), start: t, end: t + 1800 };
    let taken = Meeting { id: "Sync_0_1".to_string(), start: t - 900, end: t + 900 };

    // No room is needed: the candidate has none.
    let c = generate_meeting_candidate(&tm, &avail, free.id.clone(), &RoomPicker::NoRoom, &free)
        .unwrap();
    assert_eq!(
        c,
        MeetingCandidate {
            title: "Sync".to_string(),
            id: "Sync_0_0".to_string(),
            start: t,
            end: t + 1800,
            room: None,
            score: 1021,
        }
    );
    // An attendee is busy: no candidate.
    assert_eq!(
        generate_meeting_candidate(&tm, &avail, taken.id.clone(), &RoomPicker::NoRoom, &taken),
        None
    );
    // The first free room of the pool is taken.
    let pool = RoomPicker::Fixed(names(&["small@x", "large@x"]));
    let c = generate_meeting_candidate(&tm, &avail, free.id.clone(), &pool, &free).unwrap();
    assert_eq!(c.room, Some("large@x".to_string()));
    // A room is needed and none is free: no candidate.
    let pool = RoomPicker::Fixed(names(&["small@x"]));
    assert_eq!(generate_meeting_candidate(&tm, &avail, free.id.clone(), &pool, &free), None);
    // An empty pool has no free room.
    let pool = RoomPicker::Fixed(vec![]);
    assert_eq!(generate_meeting_candidate(&tm, &avail, free.id.clone(), &pool, &free), None);
    assert_eq!(find_free_room(&avail, &names(&["small@x", "large@x"]), t, t + 1800), Some("large@x".to_string()));
    assert_eq!(find_free_room(&avail, &names(&["small@x"]), t + 900, t + 1800), Some("small@x".to_string()));
}

#[test]
fn rooms_by_size() {
    let config = Config {
        small_rooms: Some(names(&["foo@bar.com", "joe@baz.com"])),
        large_rooms: Some(names(&["bozorg@jam.com"])),
        reject_iso_weekday: None,
        reject_hour_range: None,
        ignore_all_day_events: true,
        ignore_meetings_with_no_response: true,
    };
    assert_eq!(config.room_picker(0), Some(names(&["foo@bar.com", "joe@baz.com"])));
    assert_eq!(config.room_picker(2), Some(names(&["foo@bar.com", "joe@baz.com"])));
    assert_eq!(config.room_picker(3), Some(names(&["bozorg@jam.com"])));
    let picker = RoomPicker::BySize(config);
    assert_eq!(picker.pick(2), Some(names(&["foo@bar.com", "joe@baz.com"])));
    assert_eq!(picker.pick(7), Some(names(&["bozorg@jam.com"])));
    assert_eq!(RoomPicker::NoRoom.pick(7), None);
    let no_rooms = Config {
        small_rooms: None,
        large_rooms: None,
        reject_iso_weekday: None,
        reject_hour_range: None,
        ignore_all_day_events: false,
        ignore_meetings_with_no_response: false,
    };
    assert_eq!(no_rooms.room_picker(1), None);
    let options = Options::from_config(&no_rooms);
    assert!(!options.ignore_all_day_events);
    assert!(!options.ignore_meetings_with_no_response);
    assert!(!options.consider_meetings_in_the_past);
    let defaults = Options::default();
    assert!(defaults.ignore_all_day_events);
    assert!(defaults.ignore_meetings_with_no_response);
    assert_eq!(defaults.room_picker_fn, RoomPicker::NoRoom);
}

#[test]
fn identities_are_attendees_and_rooms_each_once() {
    let t = los_angeles(2018, 2, 8, 10, 0);
    let ms = vec![
        meeting("One", &["a@x", "b@x"], t, t + 3600),
        meeting("Two", &["b@x", "c@x", "d@x", "a@x"], t, t + 3600),
    ];
    let config = Config {
        small_rooms: Some(names(&["small@x", "b@x"])),
        large_rooms: Some(names(&["large@x"])),
        reject_iso_weekday: None,
        reject_hour_range: None,
        ignore_all_day_events: true,
        ignore_meetings_with_no_response: true,
    };
    let mut got = extract_attendees(&ms, &RoomPicker::BySize(config));
    got.sort();
    assert_eq!(got, names(&["a@x", "b@x", "c@x", "d@x", "large@x", "small@x"]));
    let mut got = extract_attendees(&ms, &RoomPicker::NoRoom);
    got.sort();
    assert_eq!(got, names(&["a@x", "b@x", "c@x", "d@x"]));
    assert!(extract_attendees(&vec![], &RoomPicker::NoRoom).is_empty());
}

#[test]
fn conflicts_are_pairs_that_share_time() {
    let mut cands: StrMap<MeetingCandidate> = StrMap::new();
    cands.insert("b".to_string(), candidate("t", "b", 0, 10, 1));
    cands.insert("a".to_string(), candidate("t", "a", 5, 15, 1));
    cands.insert("c".to_string(), candidate("u", "c", 10, 20, 1));
    cands.insert("d".to_string(), candidate("u", "d", 30, 40, 1));
    cands.insert("e".to_string(), candidate("u", "e", 0, 10, 1));
    cands.insert("empty".to_string(), candidate("u", "empty", 7, 7, 1));
    let mut got = build_intersections_pairs(&cands);
    got.sort();
    // b and c only touch; d is alone; e lies on b; an empty interval shares
    // no time with anything.
    assert_eq!(got, vec![pair("a", "b"), pair("a", "c"), pair("a", "e"), pair("b", "e")]);
    assert!(build_intersections_pairs(&StrMap::new()).is_empty());
}

#[test]
fn single_meeting_with_empty_calendars() {
    // Thursday 8 February 2018 to Friday 9 February, 11:00 to 16:00, two
    // attendees, one small room.
    let ms = vec![meeting(
        "Planning",
        &["a@x", "b@x"],
        los_angeles(2018, 2, 8, 11, 0),
        los_angeles(2018, 2, 9, 16, 0),
    )];
    let config = Config {
        small_rooms: Some(names(&["small@x"])),
        large_rooms: None,
        reject_iso_weekday: Some(vec![3, 6, 7]),
        reject_hour_range: Some(vec![optirust::types::HourRange {
            from: optirust::types::HourSpec { hours: 12, minutes: 0, seconds: 0 },
            to: optirust::types::HourSpec { hours: 13, minutes: 0, seconds: 0 },
        }]),
        ignore_all_day_events: true,
        ignore_meetings_with_no_response: true,
    };
    let options = Options::from_config(&config);
    let mut people = extract_attendees(&ms, &options.room_picker_fn);
    people.sort();
    assert_eq!(people, names(&["a@x", "b@x", "small@x"]));
    let avail = calendars(&[("a@x", vec![]), ("b@x", vec![]), ("small@x", vec![])]);
    let k = SolverInput::new_from_desired_meetings_and_opts(ms.clone(), &options, &avail).unwrap();
    assert_eq!(k.candidates.len(), 16);
    assert_eq!(k.candidate_per_desired_meeting.get("Planning").unwrap().len(), 16);
    assert!(k.candidates.vals.iter().all(|c| c.score == 1));
    assert!(k.candidates.vals.iter().all(|c| c.room == Some("small@x".to_string())));
    assert!(k.intersections.is_empty());
    // The solver chooses one of them.
    let answer = "Optimal - objective value -1.00000000\n 4 Planning_0_4 1 -1\n";
    let chosen = read_cbc_solver_solution(answer, &k).unwrap();
    assert_eq!(chosen.len(), 1);
    assert_eq!(chosen.vals[0].0, ms[0]);
    assert_eq!(chosen.vals[0].1.score, 1);
    assert_eq!(chosen.vals[0].1.start, los_angeles(2018, 2, 8, 14, 0));
    // The same policies by default give the same problem.
    let standard = Options {
        room_picker_fn: RoomPicker::Fixed(names(&["small@x"])),
        ..Default::default()
    };
    let same = SolverInput::new_from_desired_meetings_and_opts(ms, &standard, &avail).unwrap();
    assert_eq!(same.to_lp_fmt(), k.to_lp_fmt());
}

#[test]
fn conflict_pair_for_each_shared_slot() {
    // Two meetings with the same window and a shared attendee.
    let from = los_angeles(2018, 2, 8, 9, 0);
    let to = los_angeles(2018, 2, 8, 11, 0);
    let ms = vec![
        meeting("One", &["a@x", "b@x"], from, to),
        meeting("Two", &["a@x", "c@x"], from, to),
    ];
    let options = Options::default();
    let avail = calendars(&[("a@x", vec![]), ("b@x", vec![]), ("c@x", vec![])]);
    let k = SolverInput::new_from_desired_meetings_and_opts(ms, &options, &avail).unwrap();
    assert_eq!(k.candidates.len(), 8);
    let mut got = k.intersections.clone();
    got.sort();
    assert_eq!(
        got,
        vec![
            pair("One_0_0", "Two_0_0"),
            pair("One_0_1", "Two_0_1"),
            pair("One_0_2", "Two_0_2"),
            pair("One_0_3", "Two_0_3")
        ]
    );
    let lp = k.to_lp_fmt();
    assert!(lp.contains("\n  One_0_0 + Two_0_0 <= 1\n"));
    assert!(lp.contains("\n  One_0_0 + One_0_1 + One_0_2 + One_0_3 = 1\n"));
}

#[test]
fn answer_that_meets_the_constraints_books_nobody_twice() {
    let from = los_angeles(2018, 2, 8, 9, 0);
    let to = los_angeles(2018, 2, 8, 10, 0);
    let ms = vec![
        meeting("One", &["a@x", "b@x"], from, to),
        meeting("Two", &["a@x", "c@x"], from, to),
    ];
    let avail = calendars(&[("a@x", vec![]), ("b@x", vec![]), ("c@x", vec![])]);
    let k = SolverInput::new_from_desired_meetings_and_opts(ms.clone(), &Options::default(), &avail)
        .unwrap();
    // Every choice of one candidate for each meeting that leaves out the
    // conflicts gives two meetings that do not share time.
    let mut choices = 0;
    for x in k.candidate_per_desired_meeting.get("One").unwrap() {
        for y in k.candidate_per_desired_meeting.get("Two").unwrap() {
            let (a, b) = if x < y { (x.clone(), y.clone()) } else { (y.clone(), x.clone()) };
            if k.intersections.contains(&(a, b)) {
                continue;
            }
            choices += 1;
            let answer = format!("Optimal - objective value -2.0\n 0 {} 1 -1\n 1 {} 1 -1\n", x, y);
            let chosen = read_cbc_solver_solution(&answer, &k).unwrap();
            assert_eq!(chosen.keys, vec!["One".to_string(), "Two".to_string()]);
            let (first, second) = (&chosen.vals[0].1, &chosen.vals[1].1);
            assert_eq!(chosen.vals[0].0, ms[0]);
            assert_eq!(chosen.vals[1].0, ms[1]);
            assert!(first.end <= second.start || second.end <= first.start);
        }
    }
    assert_eq!(choices, 2);
}

#[test]
fn attendee_busy_through_the_window_leaves_no_candidate() {
    let from = los_angeles(2018, 2, 8, 9, 0);
    let to = los_angeles(2018, 2, 8, 11, 0);
    let ms = vec![meeting("One", &["a@x"], from, to)];
    let avail = calendars(&[("a@x", vec![(from - 3600, to + 3600)])]);
    let k = SolverInput::new_from_desired_meetings_and_opts(ms, &Options::default(), &avail)
        .unwrap();
    assert_eq!(k.candidates.len(), 0);
    assert_eq!(k.candidate_per_desired_meeting.len(), 0);
    assert!(k.intersections.is_empty());
    // A solver that finds nothing optimal leaves the run unsolved.
    let answer = read_cbc_solver_solution("Infeasible - objective value 0.00000000\n", &k);
    assert_eq!(answer, None);
    let solution = Solution::from_answer(answer);
    assert!(!solution.solved);
    assert_eq!(solution.candidates.len(), 0);
}

#[test]
fn what_a_run_needs() {
    let from = los_angeles(2018, 2, 8, 9, 0);
    let one = meeting("One", &["a@x", "b@x"], from, from + 7200);
    let two = meeting("Two", &["a@x"], from, from + 7200);
    let avail = calendars(&[("a@x", vec![]), ("b@x", vec![])]);
    let options = Options::default();
    assert!(is_ready(&vec![one.clone(), two.clone()], &avail, &options));
    assert!(is_ready(&vec![], &avail, &options));
    // Two meetings with the same slug.
    let mut again = two.clone();
    again.title = "T w o".to_string();
    assert!(!is_ready(&vec![one.clone(), two.clone(), again], &avail, &options));
    // A calendar is missing: an attendee's, or a room's.
    let stranger = meeting("Three", &["c@x"], from, from + 7200);
    assert!(!is_ready(&vec![one.clone(), stranger], &avail, &options));
    let with_room = Options {
        room_picker_fn: RoomPicker::Fixed(vec!["room@x".to_string()]),
        ..Default::default()
    };
    assert!(!is_ready(&vec![one.clone()], &avail, &with_room));
    // A meeting that is not well formed.
    for spoil in [
        |m: &mut DesiredMeeting| m.step = 0,
        |m: &mut DesiredMeeting| m.duration = -1,
        |m: &mut DesiredMeeting| m.max_date = m.min_date - 1,
        |m: &mut DesiredMeeting| m.slug = "one".to_string(),
    ] {
        let mut bad = one.clone();
        spoil(&mut bad);
        assert!(!bad.is_wf());
        assert!(!is_ready(&vec![bad], &avail, &options));
    }
    assert!(one.is_wf());
    // A store that holds a name twice.
    let mut twice = calendars(&[("a@x", vec![]), ("b@x", vec![])]);
    twice.keys.push("a@x".to_string());
    twice.vals.push(IntervalTree::new());
    assert!(!twice.is_wf());
    assert!(!is_ready(&vec![two.clone()], &twice, &options));
    let mut problem = SolverInput::new();
    assert!(problem.is_wf());
    problem.candidates.keys.push("x".to_string());
    assert!(!problem.is_wf());
}

#[test]
fn unknown_zone_of_a_meeting_fails_the_run() {
    let from = los_angeles(2018, 2, 8, 9, 0);
    let mut bad = meeting("Two", &["a@x"], from, from + 7200);
    bad.timezone = "Atlantis/Central".to_string();
    let ms = vec![meeting("One", &["a@x"], from, from + 7200), bad];
    let avail = calendars(&[("a@x", vec![])]);
    let r = SolverInput::new_from_desired_meetings_and_opts(ms, &Options::default(), &avail);
    assert_eq!(r, Err(SlotError::NoLocalTime));
}

#[test]
fn test_to_lp_fmt() {
    let mut input = SolverInput::new();
    let candidate_a = sample_candidate_a();
    let candidate_b = sample_candidate_b();
    let desired_meetings = test_desired_meetings().unwrap();

    input.candidates.insert("id10873".to_string(), candidate_a.clone());
    input.candidates.insert("id0".to_string(), candidate_b.clone());
    input.desired_meetings.extend(desired_meetings.clone());
    input
        .candidate_per_desired_meeting
        .insert("title".to_string(), vec!["id10873".to_string()]);
    input
        .candidate_per_desired_meeting
        .insert("title2".to_string(), vec!["id0".to_string()]);

    assert_eq!(
        "Maximize
  obj: 23 id0 + 23 id10873
Subject To
  id0 = 1
  id10873 = 1
Binary
  id0 id10873
End",
        input.to_lp_fmt()
    );
}

#[test]
fn lp_text_is_sorted_and_the_same_in_any_order() {
    let build = |order: &[usize]| {
        let all = [
            candidate("beta", "b_0_1", 0, 10, 300),
            candidate("alpha", "a_0_0", 0, 10, 7),
            candidate("beta", "b_0_0", 5, 15, 21),
            candidate("alpha", "a_0_10", 20, 30, 1021),
        ];
        let mut cands: StrMap<MeetingCandidate> = StrMap::new();
        let mut per: StrMap<Vec<String>> = StrMap::new();
        for i in order {
            add_candidate(&mut cands, &mut per, all[*i].id.clone(), all[*i].clone());
        }
        let intersections = build_intersections_pairs(&cands);
        SolverInput {
            intersections,
            candidate_per_desired_meeting: per,
            candidates: cands,
            desired_meetings: vec![],
        }
    };
    let expected = "Maximize
  obj: 7 a_0_0 + 1021 a_0_10 + 21 b_0_0 + 300 b_0_1
Subject To
  a_0_0 + a_0_10 = 1
  b_0_0 + b_0_1 = 1
  a_0_0 + b_0_0 <= 1
  a_0_0 + b_0_1 <= 1
  b_0_0 + b_0_1 <= 1
Binary
  a_0_0 a_0_10 b_0_0 b_0_1
End";
    assert_eq!(build(&[0, 1, 2, 3]).to_lp_fmt(), expected);
    assert_eq!(build(&[3, 2, 1, 0]).to_lp_fmt(), expected);
    assert_eq!(build(&[2, 0, 3, 1]).to_lp_fmt(), expected);
    let same = build(&[1, 3, 0, 2]);
    assert_eq!(same.to_lp_fmt(), same.to_lp_fmt());
}

#[test]
fn lp_text_of_an_empty_problem() {
    assert_eq!(
        SolverInput::new().to_lp_fmt(),
        "Maximize\n  obj: \nSubject To\n\nBinary\n  \nEnd"
    );
}

#[test]
fn test_read_cbc_solver_solution_with_good_solver_input() {
    let mut input = SolverInput::new();
    let candidate_a = sample_candidate_a();
    let candidate_b = sample_candidate_b();
    let desired_meetings = test_desired_meetings().unwrap();

    input.candidates.insert("id10873".to_string(), candidate_a.clone());
    input.candidates.insert("id0".to_string(), candidate_b.clone());
    input.desired_meetings.extend(desired_meetings.clone());

    let mut expected_output: Assignment = StrMap::new();
    expected_output.insert(
        desired_meetings[0].title.clone(),
        (desired_meetings[0].clone(), candidate_a),
    );
    expected_output.insert(
        desired_meetings[1].title.clone(),
        (desired_meetings[1].clone(), candidate_b),
    );

    assert_eq!(
        Some(expected_output),
        read_cbc_solver_solution(&sample_cbc_solution(), &input)
    );
}

#[test]
fn answers_of_the_solver() {
    let desired_meetings = test_desired_meetings().unwrap();
    let mut input = SolverInput::new();
    input.candidates.insert("x".to_string(), candidate("title", "x", 0, 10, 1));
    input.candidates.insert("y".to_string(), candidate("title", "y", 20, 30, 1));
    input.candidates.insert("z".to_string(), candidate("title2", "z", 0, 10, 1));
    input.candidates.insert("lost".to_string(), candidate("no such title", "lost", 0, 10, 1));
    input.desired_meetings.extend(desired_meetings.clone());
    let read = |text: &str| read_cbc_solver_solution(text, &input);

    // Not optimal, or nothing at all: no assignment.
    assert_eq!(read("Infeasible - objective value 0.0\n 0 x 1 0"), None);
    assert_eq!(read(""), None);
    assert_eq!(read("\nOptimal"), None);
    // Optimal with no row: an empty assignment.
    assert_eq!(read("Optimal - objective value 0.0").unwrap().len(), 0);
    assert_eq!(read("Optimal - objective value 0.0\n\n  \n").unwrap().len(), 0);
    // Only the value 1 chooses a candidate.
    let a = read("Optimal - objective value -2.0\n 0 x 0 0\n 1 y 1 -1\r\n 2 z 1 -1\n").unwrap();
    assert_eq!(a.keys, vec!["title".to_string(), "title2".to_string()]);
    assert_eq!(a.vals[0].0, desired_meetings[0]);
    assert_eq!(a.vals[0].1.id, "y");
    assert_eq!(a.vals[1].1.id, "z");
    let solution = Solution::from_answer(Some(a));
    assert!(solution.solved);
    assert_eq!(solution.candidates.len(), 2);
    // A later row for the same meeting takes the place of an earlier one.
    let a = read("Optimal\n 0 x 1 0\n 1 y 1 0").unwrap();
    assert_eq!(a.len(), 1);
    assert_eq!(a.vals[0].1.id, "y");
    // Rows that cannot be read, unknown variables and candidates without a
    // meeting spoil the answer.
    assert_eq!(read("Optimal\n 0 x"), None);
    assert_eq!(read("Optimal\n 0 nobody 1 0"), None);
    assert_eq!(read("Optimal\n 0 lost 1 0"), None);
    assert!(read("Optimal\n 0 nobody 0 0").is_some());
}
