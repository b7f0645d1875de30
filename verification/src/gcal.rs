//! The calendar provider's events as plain values: which of them make an
//! identity busy, when, and the event that books a candidate.

use crate::strmap::{str_same, StrMap};
use crate::text::views;
use crate::time::{
    date_midnight, format_rfc3339, instant_of_local, parse_date, parse_rfc3339, rfc3339_instant,
    rfc3339_text, zone_exists, zone_instant, zone_known,
};
use crate::tree::{tree_entries, tree_insert, tree_new, MeetingsTree};
use crate::types::{
    meeting_views, opt_view, Availability, DesiredMeeting, Meeting, MeetingCandidate, MeetingView,
    Solution,
};
use vstd::multiset::Multiset;
use vstd::prelude::*;

verus! {

/// One end of an event: a date and time in RFC 3339, or for an event that
/// lasts whole days a calendar date.
#[derive(Debug, PartialEq, Eq)]
pub struct EventDateTime {
    pub date_time: Option<String>,
    pub date: Option<String>,
}

/// Someone who is invited to an event, and what they answered.
#[derive(Debug, PartialEq, Eq)]
pub struct EventAttendee {
    pub email: Option<String>,
    pub response_status: Option<String>,
}

/// An event of a calendar.
#[derive(Debug, PartialEq, Eq)]
pub struct Event {
    pub id: Option<String>,
    pub start: Option<EventDateTime>,
    pub end: Option<EventDateTime>,
    pub attendees: Option<Vec<EventAttendee>>,
    pub summary: Option<String>,
    pub description: Option<String>,
    pub use_default_reminders: Option<bool>,
}

/// Why an event cannot be read.
#[derive(Debug, PartialEq, Eq, Clone, Copy)]
pub enum EventError {
    /// A part that every event has is missing: an end of the event, its
    /// identifier, or the answer of the identity whose calendar it is on.
    Malformed,
    /// A date or a date and time is not written as it should be.
    BadDate,
    /// An event of whole days starts or ends at a midnight that the
    /// calendar's zone skips or shows twice.
    NoLocalTime,
    /// The event ends before it starts.
    Reversed,
    /// The calendar's zone is not a known time zone.
    UnknownZone,
}

/// The format of the calendar dates of events that last whole days.
pub open spec fn date_format() -> Seq<char> {
    "%Y-%m-%d"@
}

/// The name that stands for an attendee without an address.
pub open spec fn no_email() -> Seq<char> {
    "XXX"@
}

/// Whether the attendee is the person: by address, where `XXX` stands for an
/// attendee without one.
pub open spec fn is_person(a: EventAttendee, person: Seq<char>) -> bool {
    match a.email {
        Some(e) => e@ == person,
        None => no_email() == person,
    }
}

/// Whether the event has both ends in a form that counts: as dates and
/// times, or as calendar dates where events of whole days are not ignored.
pub open spec fn has_bounds(start: EventDateTime, end: EventDateTime, ignore_all_day: bool) -> bool {
    (start.date_time is Some && end.date_time is Some) || (!ignore_all_day && start.date is Some
        && end.date is Some)
}

/// Whether an answer says that the person takes part: accepted or tentative.
pub open spec fn takes_part(status: Seq<char>) -> bool {
    status == "accepted"@ || status == "tentative"@
}

/// The number of attendees among the first `n` who are the person.
pub open spec fn count_person(attendees: Seq<EventAttendee>, person: Seq<char>, n: int) -> nat
    decreases n,
{
    if n <= 0 {
        0
    } else if is_person(attendees[n - 1], person) {
        count_person(attendees, person, n - 1) + 1
    } else {
        count_person(attendees, person, n - 1)
    }
}

/// Whether one of the first `n` attendees is the person and has no answer.
pub open spec fn lacks_answer(attendees: Seq<EventAttendee>, person: Seq<char>, n: int) -> bool {
    exists|i: int|
        0 <= i < n && is_person(#[trigger] attendees[i], person) && attendees[i].response_status
            is None
}

/// Whether an event makes the person busy. An event without an end, or on
/// which the person has no answer, cannot be read. An event counts where it
/// has bounds and, if it lists attendees, the person is among them exactly
/// once and, where events without a response are ignored, accepted it or
/// holds it tentatively.
pub open spec fn spec_valid_event(
    person: Seq<char>,
    e: Event,
    ignore_all_day: bool,
    ignore_no_response: bool,
) -> Result<bool, EventError> {
    match (e.start, e.end) {
        (Some(start), Some(end)) => {
            let bounds = has_bounds(start, end, ignore_all_day);
            match e.attendees {
                None => Ok(bounds),
                Some(list) => if lacks_answer(list@, person, list@.len() as int) {
                    Err(EventError::Malformed)
                } else if count_person(list@, person, list@.len() as int) != 1 {
                    Ok(false)
                } else {
                    let i = choose|i: int| 0 <= i < list@.len() && is_person(list@[i], person);
                    let status = list@[i].response_status->0@;
                    Ok(!(ignore_no_response && !takes_part(status)) && bounds)
                },
            }
        },
        _ => Err(EventError::Malformed),
    }
}

/// Whether the attendee is the person.
fn attendee_is(a: &EventAttendee, person: &str) -> (r: bool)
    ensures
        r == is_person(*a, person@),
{
    match &a.email {
        Some(e) => str_same(e.as_str(), person),
        None => str_same("XXX", person),
    }
}

/// If the person is among the attendees once only, where.
proof fn lemma_single(attendees: Seq<EventAttendee>, person: Seq<char>, n: int, at: int)
    requires
        0 <= at < n <= attendees.len(),
        is_person(attendees[at], person),
        count_person(attendees, person, n) == 1,
    ensures
        forall|i: int| 0 <= i < n && is_person(attendees[i], person) ==> i == at,
    decreases n,
{
    lemma_count_bounds(attendees, person, n - 1);
    if at == n - 1 {
        lemma_count_none(attendees, person, n - 1);
    } else {
        if is_person(attendees[n - 1], person) {
            lemma_count_some(attendees, person, n - 1, at);
        } else {
            lemma_single(attendees, person, n - 1, at);
        }
    }
}

/// A count is not negative.
proof fn lemma_count_bounds(attendees: Seq<EventAttendee>, person: Seq<char>, n: int)
    ensures
        count_person(attendees, person, n) >= 0,
    decreases n,
{
}

/// A count of zero means that the person is not among the attendees.
proof fn lemma_count_none(attendees: Seq<EventAttendee>, person: Seq<char>, n: int)
    requires
        0 <= n <= attendees.len(),
        count_person(attendees, person, n) == 0,
    ensures
        forall|i: int| 0 <= i < n ==> !is_person(attendees[i], person),
    decreases n,
{
    if n > 0 {
        lemma_count_none(attendees, person, n - 1);
    }
}

/// Where the person is among the attendees, the count is not zero.
proof fn lemma_count_some(attendees: Seq<EventAttendee>, person: Seq<char>, n: int, at: int)
    requires
        0 <= at < n <= attendees.len(),
        is_person(attendees[at], person),
    ensures
        count_person(attendees, person, n) >= 1,
    decreases n,
{
    if at < n - 1 {
        lemma_count_some(attendees, person, n - 1, at);
    }
}

/// Whether an event makes the person busy.
pub fn valid_api_meeting(
    person: &str,
    l: &Event,
    ignore_all_day_events: bool,
    ignore_meetings_with_no_response: bool,
) -> (r: Result<bool, EventError>)
    ensures
        r == spec_valid_event(
            person@,
            *l,
            ignore_all_day_events,
            ignore_meetings_with_no_response,
        ),
{
    let start = match &l.start {
        Some(s) => s,
        None => {
            return Err(EventError::Malformed);
        },
    };
    let end = match &l.end {
        Some(e) => e,
        None => {
            return Err(EventError::Malformed);
        },
    };
    let has_bound = (start.date_time.is_some() && end.date_time.is_some()) || (
    !ignore_all_day_events && start.date.is_some() && end.date.is_some());
    let attendees = match &l.attendees {
        Some(a) => a,
        None => {
            return Ok(has_bound);
        },
    };
    let mut count: usize = 0;
    let mut found: usize = 0;
    let mut i: usize = 0;
    while i < attendees.len()
        invariant
            i <= attendees.len(),
            l.start == Some(*start),
            l.end == Some(*end),
            l.attendees == Some(*attendees),
            count <= i,
            count == count_person(attendees@, person@, i as int),
            !lacks_answer(attendees@, person@, i as int),
            count > 0 ==> found < i && is_person(attendees@[found as int], person@),
        decreases attendees.len() - i,
    {
        if attendee_is(&attendees[i], person) {
            if attendees[i].response_status.is_none() {
                assert(lacks_answer(attendees@, person@, attendees@.len() as int));
                return Err(EventError::Malformed);
            }
            count += 1;
            found = i;
        }
        i += 1;
    }
    if count != 1 {
        return Ok(false);
    }
    proof {
        lemma_single(attendees@, person@, attendees@.len() as int, found as int);
        let w = choose|w: int| 0 <= w < attendees@.len() && is_person(attendees@[w], person@);
        assert(w == found);
    }
    let status = match &attendees[found].response_status {
        Some(s) => s,
        None => {
            return Err(EventError::Malformed);
        },
    };
    let has_response = str_same(status.as_str(), "accepted") || str_same(
        status.as_str(),
        "tentative",
    );
    if ignore_meetings_with_no_response && !has_response {
        return Ok(false);
    }
    Ok(has_bound)
}

/// The result of reading an event, as plain values.
pub open spec fn meeting_result_view(r: Result<Meeting, EventError>) -> Result<
    MeetingView,
    EventError,
> {
    match r {
        Ok(m) => Ok(m@),
        Err(e) => Err(e),
    }
}

/// The interval of an event that lasts whole days: from the midnight of its
/// first date to the midnight of its last, on the clocks of the calendar's
/// zone.
pub open spec fn spec_all_day(
    id: Seq<char>,
    start: Seq<char>,
    end: Seq<char>,
    zone: Seq<char>,
) -> Result<MeetingView, EventError> {
    match (date_midnight(start, date_format()), date_midnight(end, date_format())) {
        (Some(ls), Some(le)) => match (zone_instant(zone, ls), zone_instant(zone, le)) {
            (Some(s), Some(e)) => Ok(MeetingView { id, start: s, end: e }),
            _ => Err(EventError::NoLocalTime),
        },
        _ => Err(EventError::BadDate),
    }
}

/// The interval of an event that is given by two dates and times.
pub open spec fn spec_timed(id: Seq<char>, start: Seq<char>, end: Seq<char>) -> Result<
    MeetingView,
    EventError,
> {
    match (rfc3339_instant(start), rfc3339_instant(end)) {
        (Some(s), Some(e)) => Ok(MeetingView { id, start: s, end: e }),
        _ => Err(EventError::BadDate),
    }
}

/// The meeting that an event stands for. An event whose start has no date
/// and time lasts whole days and is read by its calendar dates; any other by
/// its two dates and times.
pub open spec fn spec_from_api(e: Event, zone: Seq<char>) -> Result<MeetingView, EventError> {
    match (e.start, e.end, e.id) {
        (Some(start), Some(end), Some(id)) => match start.date_time {
            None => match (start.date, end.date) {
                (Some(sd), Some(ed)) => spec_all_day(id@, sd@, ed@, zone),
                _ => Err(EventError::Malformed),
            },
            Some(st) => match end.date_time {
                Some(et) => spec_timed(id@, st@, et@),
                None => Err(EventError::Malformed),
            },
        },
        _ => Err(EventError::Malformed),
    }
}

/// The interval of an event that lasts whole days, from its calendar dates
/// as the zone's clocks show them.
pub fn all_day_meeting(id: &str, start: &str, end: &str, zone: &str) -> (r: Result<
    Meeting,
    EventError,
>)
    ensures
        meeting_result_view(r) == spec_all_day(id@, start@, end@, zone@),
{
    let ls = parse_date(start, "%Y-%m-%d");
    let le = parse_date(end, "%Y-%m-%d");
    match (ls, le) {
        (Some(ls), Some(le)) => {
            let s = instant_of_local(zone, ls);
            let e = instant_of_local(zone, le);
            match (s, e) {
                (Some(s), Some(e)) => Ok(Meeting { id: id.to_owned(), start: s, end: e }),
                _ => Err(EventError::NoLocalTime),
            }
        },
        _ => Err(EventError::BadDate),
    }
}

/// The interval of an event that is given by two dates and times.
pub fn timed_meeting(id: &str, start: &str, end: &str) -> (r: Result<Meeting, EventError>)
    ensures
        meeting_result_view(r) == spec_timed(id@, start@, end@),
{
    match (parse_rfc3339(start), parse_rfc3339(end)) {
        (Some(s), Some(e)) => Ok(Meeting { id: id.to_owned(), start: s, end: e }),
        _ => Err(EventError::BadDate),
    }
}

impl Meeting {
    /// The meeting that an event of a calendar stands for, where the
    /// calendar's zone is `zone`.
    pub fn from_api(s: &Event, zone: &str) -> (r: Result<Meeting, EventError>)
        ensures
            meeting_result_view(r) == spec_from_api(*s, zone@),
    {
        match (&s.start, &s.end, &s.id) {
            (Some(start), Some(end), Some(id)) => match &start.date_time {
                None => match (&start.date, &end.date) {
                    (Some(sd), Some(ed)) => all_day_meeting(
                        id.as_str(),
                        sd.as_str(),
                        ed.as_str(),
                        zone,
                    ),
                    _ => Err(EventError::Malformed),
                },
                Some(st) => match &end.date_time {
                    Some(et) => timed_meeting(id.as_str(), st.as_str(), et.as_str()),
                    None => Err(EventError::Malformed),
                },
            },
            _ => Err(EventError::Malformed),
        }
    }
}

/// The meetings that the events from position `i` on add to those found:
/// each event that makes the person busy gives one. All is lost with an
/// event that cannot be read, or that ends before it starts.
pub open spec fn spec_busy_from(
    person: Seq<char>,
    events: Seq<Event>,
    zone: Seq<char>,
    ignore_all_day: bool,
    ignore_no_response: bool,
    i: int,
    found: Seq<MeetingView>,
) -> Result<Seq<MeetingView>, EventError>
    decreases events.len() - i,
{
    if i < 0 || i >= events.len() {
        Ok(found)
    } else {
        match spec_valid_event(person, events[i], ignore_all_day, ignore_no_response) {
            Err(e) => Err(e),
            Ok(false) => spec_busy_from(
                person,
                events,
                zone,
                ignore_all_day,
                ignore_no_response,
                i + 1,
                found,
            ),
            Ok(true) => match spec_from_api(events[i], zone) {
                Err(e) => Err(e),
                Ok(m) => if m.end < m.start {
                    Err(EventError::Reversed)
                } else {
                    spec_busy_from(
                        person,
                        events,
                        zone,
                        ignore_all_day,
                        ignore_no_response,
                        i + 1,
                        found.push(m),
                    )
                },
            },
        }
    }
}

/// The meetings that make a person busy, from the events of the person's
/// calendar. A calendar whose zone is unknown cannot be read.
pub open spec fn spec_busy(
    person: Seq<char>,
    events: Seq<Event>,
    zone: Seq<char>,
    ignore_all_day: bool,
    ignore_no_response: bool,
) -> Result<Seq<MeetingView>, EventError> {
    if !zone_exists(zone) {
        Err(EventError::UnknownZone)
    } else {
        spec_busy_from(person, events, zone, ignore_all_day, ignore_no_response, 0, Seq::empty())
    }
}

/// The result of reading a calendar, as plain values.
pub open spec fn meetings_result_view(r: Result<Vec<Meeting>, EventError>) -> Result<
    Seq<MeetingView>,
    EventError,
> {
    match r {
        Ok(l) => Ok(meeting_views(l@)),
        Err(e) => Err(e),
    }
}

/// Whether no meeting of the list ends before it starts.
pub open spec fn none_reversed(ms: Seq<MeetingView>) -> bool {
    forall|i: int| 0 <= i < ms.len() ==> (#[trigger] ms[i]).start <= ms[i].end
}

/// The meetings that make a person busy, from the events of the person's
/// calendar, in the calendar's order.
pub fn busy_meetings(
    person: &str,
    events: &Vec<Event>,
    zone: &str,
    ignore_all_day_events: bool,
    ignore_meetings_with_no_response: bool,
) -> (r: Result<Vec<Meeting>, EventError>)
    ensures
        meetings_result_view(r) == spec_busy(
            person@,
            events@,
            zone@,
            ignore_all_day_events,
            ignore_meetings_with_no_response,
        ),
        r matches Ok(l) ==> none_reversed(meeting_views(l@)),
{
    if !zone_known(zone) {
        return Err(EventError::UnknownZone);
    }
    let mut out: Vec<Meeting> = Vec::new();
    let mut i: usize = 0;
    assert(meeting_views(out@) =~= Seq::<MeetingView>::empty());
    while i < events.len()
        invariant
            i <= events.len(),
            zone_exists(zone@),
            none_reversed(meeting_views(out@)),
            spec_busy(
                person@,
                events@,
                zone@,
                ignore_all_day_events,
                ignore_meetings_with_no_response,
            ) == spec_busy_from(
                person@,
                events@,
                zone@,
                ignore_all_day_events,
                ignore_meetings_with_no_response,
                i as int,
                meeting_views(out@),
            ),
        decreases events.len() - i,
    {
        match valid_api_meeting(
            person,
            &events[i],
            ignore_all_day_events,
            ignore_meetings_with_no_response,
        ) {
            Err(e) => {
                return Err(e);
            },
            Ok(false) => {},
            Ok(true) => {
                match Meeting::from_api(&events[i], zone) {
                    Err(e) => {
                        return Err(e);
                    },
                    Ok(m) => {
                        if m.end < m.start {
                            return Err(EventError::Reversed);
                        }
                        let ghost before = meeting_views(out@);
                        let ghost mv = m@;
                        out.push(m);
                        assert(meeting_views(out@) =~= before.push(mv));
                    },
                }
            },
        }
        i += 1;
    }
    Ok(out)
}

/// The intervals and identifiers of meetings.
pub open spec fn entries_of(ms: Seq<MeetingView>) -> Seq<(int, int, Seq<char>)> {
    ms.map_values(|m: MeetingView| (m.start, m.end, m.id))
}

/// The index of the meetings by their intervals.
pub fn meetings_to_tree(meetings: &Vec<Meeting>) -> (t: MeetingsTree)
    requires
        none_reversed(meeting_views(meetings@)),
    ensures
        tree_entries(t) == entries_of(meeting_views(meetings@)).to_multiset(),
{
    let mut t = tree_new();
    let mut i: usize = 0;
    let ghost all = entries_of(meeting_views(meetings@));
    proof {
        assert(all.take(0) =~= Seq::<(int, int, Seq<char>)>::empty());
        vstd::seq_lib::to_multiset_len(all.take(0));
        assert(all.take(0).to_multiset() =~= Multiset::<(int, int, Seq<char>)>::empty()) by {
            broadcast use vstd::multiset::group_multiset_axioms;
            broadcast use vstd::seq_lib::group_to_multiset_ensures;

        }
    }
    while i < meetings.len()
        invariant
            i <= meetings.len(),
            none_reversed(meeting_views(meetings@)),
            all == entries_of(meeting_views(meetings@)),
            tree_entries(t) == all.take(i as int).to_multiset(),
        decreases meetings.len() - i,
    {
        let m = &meetings[i];
        assert(meeting_views(meetings@)[i as int] == m@);
        tree_insert(&mut t, m.start, m.end, m.id.clone());
        proof {
            let e = (m.start as int, m.end as int, m.id@);
            assert(all.take(i + 1) =~= all.take(i as int).push(e));
            vstd::seq_lib::to_multiset_build(all.take(i as int), e);
        }
        i += 1;
    }
    assert(all.take(meetings.len() as int) =~= all);
    t
}

/// The index of what makes a person busy, from the events of the person's
/// calendar.
pub fn busy_tree(
    person: &str,
    events: &Vec<Event>,
    zone: &str,
    ignore_all_day_events: bool,
    ignore_meetings_with_no_response: bool,
) -> (r: Result<MeetingsTree, EventError>)
    ensures
        match r {
            Ok(t) => spec_busy(
                person@,
                events@,
                zone@,
                ignore_all_day_events,
                ignore_meetings_with_no_response,
            ) matches Ok(ms) && tree_entries(t) == entries_of(ms).to_multiset(),
            Err(e) => spec_busy(
                person@,
                events@,
                zone@,
                ignore_all_day_events,
                ignore_meetings_with_no_response,
            ) == Err::<Seq<MeetingView>, EventError>(e),
        },
{
    match busy_meetings(
        person,
        events,
        zone,
        ignore_all_day_events,
        ignore_meetings_with_no_response,
    ) {
        Ok(ms) => Ok(meetings_to_tree(&ms)),
        Err(e) => Err(e),
    }
}

/// The number of people who have a calendar: the shorter of the two lengths.
pub open spec fn paired(people: int, trees: int) -> int {
    if people <= trees {
        people
    } else {
        trees
    }
}

/// The store of the calendars of the people, the first calendar for the
/// first of them and so on, as far as both lists go; where a name comes
/// twice its last calendar stays.
pub fn availability_from(people: Vec<String>, trees: Vec<MeetingsTree>) -> (r: Availability)
    ensures
        r.wf(),
        forall|i: int|
            0 <= i < paired(people.len() as int, trees.len() as int) ==> r.has(
                #[trigger] people[i]@,
            ),
        forall|i: int|
            0 <= i < paired(people.len() as int, trees.len() as int) && (forall|j: int|
                i < j < paired(people.len() as int, trees.len() as int) ==> people[j]@
                    != people[i]@) ==> r.value(#[trigger] people[i]@) == trees[i],
        forall|k: Seq<char>|
            r.has(k) ==> exists|i: int|
                0 <= i < paired(people.len() as int, trees.len() as int) && #[trigger] people[i]@
                    == k,
{
    let mut names = people;
    let mut rest = trees;
    let ghost n = paired(people.len() as int, trees.len() as int);
    if names.len() > rest.len() {
        names.truncate(rest.len());
    } else {
        rest.truncate(names.len());
    }
    let mut out: Availability = StrMap::new();
    while names.len() > 0
        invariant
            names.len() == rest.len(),
            names.len() <= n,
            n <= people.len(),
            n <= trees.len(),
            names@ == people@.take(names.len() as int),
            rest@ == trees@.take(rest.len() as int),
            out.wf(),
            forall|i: int| names.len() <= i < n ==> out.has(#[trigger] people[i]@),
            forall|i: int|
                names.len() <= i < n && (forall|j: int| i < j < n ==> people[j]@ != people[i]@)
                    ==> out.value(#[trigger] people[i]@) == trees[i],
            forall|k: Seq<char>|
                out.has(k) ==> exists|i: int| names.len() <= i < n && #[trigger] people[i]@ == k,
        decreases names.len(),
    {
        let ghost before = out;
        let ghost at = names.len() - 1;
        let ghost names0 = names@;
        let ghost rest0 = rest@;
        let name = names.pop().unwrap();
        let tree = rest.pop().unwrap();
        assert(name == names0[at] && names0[at] == people@[at]);
        assert(tree == rest0[at] && rest0[at] == trees@[at]);
        assert(names@ =~= people@.take(at));
        assert(rest@ =~= trees@.take(at));
        if !out.contains_key(name.as_str()) {
            out.insert(name, tree);
        }
        proof {
            assert forall|i: int|
                at <= i < n && (forall|j: int|
                    i < j < n ==> people[j]@ != people[i]@) implies out.value(
                #[trigger] people[i]@,
            ) == trees[i] by {
                if i == at {
                    if before.has(people[at]@) {
                        let j = choose|j: int| at < j < n && #[trigger] people[j]@ == people[at]@;
                        assert(false);
                    }
                } else {
                    assert(before.has(people[i]@));
                }
            }
            assert forall|k: Seq<char>| out.has(k) implies exists|i: int|
                at <= i < n && #[trigger] people[i]@ == k by {
                if before.has(k) {
                    let i = choose|i: int| at + 1 <= i < n && #[trigger] people[i]@ == k;
                    assert(at <= i < n && people[i]@ == k);
                } else {
                    assert(people[at]@ == k);
                }
            }
        }
    }
    out
}

/// The line that is added to the description of a booked event.
pub open spec fn tagline() -> Seq<char> {
    "=> Booked by Optirust: https://github.com/charignon/optirust"@
}

/// The description of the event that books a meeting.
pub open spec fn booking_description(description: Seq<char>, include_tagline: bool) -> Seq<char> {
    if include_tagline {
        description + "\n"@ + tagline()
    } else {
        description
    }
}

/// Those who are invited to the event that books a candidate: the meeting's
/// attendees and then the room, if there is one.
pub open spec fn invited(attendees: Seq<Seq<char>>, room: Option<Seq<char>>) -> Seq<Seq<char>> {
    match room {
        Some(r) => attendees.push(r),
        None => attendees,
    }
}

/// Whether the attendees of an event are the given addresses in order, none
/// of them with an answer yet.
pub open spec fn invites(list: Seq<EventAttendee>, who: Seq<Seq<char>>) -> bool {
    &&& list.len() == who.len()
    &&& forall|i: int|
        0 <= i < list.len() ==> opt_view((#[trigger] list[i]).email) == Some(who[i]) && opt_view(
            list[i].response_status,
        ) == Some("needsAction"@)
}

/// One end of an event at an instant.
fn event_time(utc: i64) -> (r: EventDateTime)
    ensures
        opt_view(r.date_time) == rfc3339_text(utc as int),
        r.date is None,
{
    EventDateTime { date_time: format_rfc3339(utc), date: None }
}

/// The event that books a candidate for a desired meeting: the meeting's
/// attendees and the candidate's room are invited, none with an answer yet;
/// it runs from the candidate's start to its end; its summary is the
/// meeting's title, its description the meeting's, with a line that says
/// who booked it where that is asked for; reminders are the calendar's own.
pub fn candidate_and_meeting_to_event(
    desired_meeting: &DesiredMeeting,
    candidate: &MeetingCandidate,
    include_tagline: bool,
) -> (r: Event)
    ensures
        books_one(r, *desired_meeting, *candidate, include_tagline),
{
    let mut list: Vec<EventAttendee> = Vec::new();
    let mut i: usize = 0;
    let ghost who = views(desired_meeting.attendees@);
    while i < desired_meeting.attendees.len()
        invariant
            i <= desired_meeting.attendees.len(),
            who == views(desired_meeting.attendees@),
            invites(list@, who.take(i as int)),
        decreases desired_meeting.attendees.len() - i,
    {
        list.push(
            EventAttendee {
                email: Some(desired_meeting.attendees[i].clone()),
                response_status: Some("needsAction".to_owned()),
            },
        );
        i += 1;
    }
    assert(who.take(desired_meeting.attendees.len() as int) =~= who);
    match &candidate.room {
        Some(room) => {
            list.push(
                EventAttendee {
                    email: Some(room.clone()),
                    response_status: Some("needsAction".to_owned()),
                },
            );
        },
        None => {},
    }
    let mut description = desired_meeting.description.clone();
    if include_tagline {
        description.append("\n");
        description.append("=> Booked by Optirust: https://github.com/charignon/optirust");
    }
    Event {
        id: None,
        attendees: Some(list),
        start: Some(event_time(candidate.start)),
        end: Some(event_time(candidate.end)),
        description: Some(description),
        summary: Some(desired_meeting.title.clone()),
        use_default_reminders: Some(true),
    }
}

/// Whether the events book the pairs of an assignment, one for one.
pub open spec fn books(
    events: Seq<Event>,
    pairs: Seq<(DesiredMeeting, MeetingCandidate)>,
    include_tagline: bool,
) -> bool {
    &&& events.len() == pairs.len()
    &&& forall|i: int|
        0 <= i < events.len() ==> books_one(#[trigger] events[i], pairs[i].0, pairs[i].1, include_tagline)
}

/// Whether the event books the candidate for the desired meeting.
pub open spec fn books_one(
    r: Event,
    desired_meeting: DesiredMeeting,
    candidate: MeetingCandidate,
    include_tagline: bool,
) -> bool {
    &&& r.id is None
    &&& r.attendees matches Some(list) && invites(
        list@,
        invited(desired_meeting@.attendees, candidate@.room),
    )
    &&& r.start matches Some(t) && opt_view(t.date_time) == rfc3339_text(candidate.start as int)
        && t.date is None
    &&& r.end matches Some(t) && opt_view(t.date_time) == rfc3339_text(candidate.end as int)
        && t.date is None
    &&& opt_view(r.summary) == Some(desired_meeting.title@)
    &&& opt_view(r.description) == Some(
        booking_description(desired_meeting.description@, include_tagline),
    )
    &&& r.use_default_reminders == Some(true)
}

/// The events that book a solution: one for each desired meeting and its
/// candidate, in the order of the assignment.
pub fn booking_events(s: &Solution, include_tagline: bool) -> (r: Vec<Event>)
    ensures
        books(r@, s.candidates.vals@, include_tagline),
{
    let mut out: Vec<Event> = Vec::new();
    let mut i: usize = 0;
    while i < s.candidates.vals.len()
        invariant
            i <= s.candidates.vals.len(),
            books(out@, s.candidates.vals@.take(i as int), include_tagline),
        decreases s.candidates.vals.len() - i,
    {
        let pair = &s.candidates.vals[i];
        let e = candidate_and_meeting_to_event(&pair.0, &pair.1, include_tagline);
        assert(books_one(e, pair.0, pair.1, include_tagline));
        out.push(e);
        i += 1;
    }
    assert(s.candidates.vals@.take(s.candidates.vals.len() as int) =~= s.candidates.vals@);
    out
}

} // verus!
