//! What the user asks for, as it is written, and the desired meetings that
//! it stands for.

use crate::strmap::str_same;
use crate::text::views;
use crate::time::{instant_of_local, zone_exists, zone_instant, zone_known};
use crate::types::{copy_strings, slug_of, to_slug, DesiredMeeting, DesiredView};
use vstd::prelude::*;

verus! {

/// A desired meeting as the user writes it: the window as wall-clock times
/// in seconds since 1970-01-01T00:00:00 on the clocks of the meeting's zone,
/// step and duration in minutes.
#[derive(Debug, PartialEq, Eq)]
pub struct InputDesiredMeeting {
    pub title: String,
    pub description: String,
    pub attendees: Vec<String>,
    pub min_date: i64,
    pub max_date: i64,
    pub step: Option<i64>,
    pub duration: Option<i64>,
    pub timezone: Option<String>,
}

/// Why what was asked for cannot be scheduled.
#[derive(Debug, PartialEq, Eq, Clone, Copy)]
pub enum InputError {
    /// The zone's name is not that of a known time zone.
    UnknownTimezone,
    /// The step or the duration is not positive, or too long to count in
    /// seconds.
    BadLength,
    /// An end of the window is a wall-clock time that the zone skips or shows
    /// twice.
    NoLocalTime,
    /// The window ends before it starts.
    MinAfterMax,
    /// Two meetings have the same slug.
    DuplicateSlug,
}

/// The zone of meetings that name none.
pub open spec fn default_zone() -> Seq<char> {
    "America/Los_Angeles"@
}

/// The zone of a meeting as it is written.
pub open spec fn zone_of(i: InputDesiredMeeting) -> Seq<char> {
    match i.timezone {
        Some(z) => z@,
        None => default_zone(),
    }
}

/// A length of minutes in seconds, half an hour where none is given.
pub open spec fn length_of(minutes: Option<i64>) -> int {
    match minutes {
        Some(m) => m * 60,
        None => 1800,
    }
}

/// Whether a length in seconds is positive and can be counted.
pub open spec fn length_ok(seconds: int) -> bool {
    0 < seconds <= i64::MAX
}

/// What is wrong with a meeting as it is written, if anything is.
pub open spec fn input_error(i: InputDesiredMeeting) -> Option<InputError> {
    if !zone_exists(zone_of(i)) {
        Some(InputError::UnknownTimezone)
    } else if !length_ok(length_of(i.step)) || !length_ok(length_of(i.duration)) {
        Some(InputError::BadLength)
    } else {
        match (zone_instant(zone_of(i), i.min_date as int), zone_instant(
            zone_of(i),
            i.max_date as int,
        )) {
            (Some(lo), Some(hi)) => if lo > hi {
                Some(InputError::MinAfterMax)
            } else {
                None
            },
            _ => Some(InputError::NoLocalTime),
        }
    }
}

/// Whether a desired meeting is what a written one stands for: the same
/// title, description and attendees, the slug of the title, the window's
/// ends as instants, and step and duration in seconds.
pub open spec fn stands_for(m: DesiredView, i: InputDesiredMeeting) -> bool {
    &&& m.title == i.title@
    &&& m.slug == slug_of(i.title@)
    &&& m.description == i.description@
    &&& m.attendees == views(i.attendees@)
    &&& Some(m.min_date) == zone_instant(zone_of(i), i.min_date as int)
    &&& Some(m.max_date) == zone_instant(zone_of(i), i.max_date as int)
    &&& m.step == length_of(i.step)
    &&& m.duration == length_of(i.duration)
    &&& m.timezone == zone_of(i)
}

/// A length of minutes in seconds.
fn seconds_of(minutes: Option<i64>) -> (r: Option<i64>)
    ensures
        r is Some <==> length_ok(length_of(minutes)),
        r matches Some(s) ==> s == length_of(minutes),
{
    match minutes {
        None => Some(1800),
        Some(m) => {
            if m <= 0 {
                None
            } else {
                m.checked_mul(60)
            }
        },
    }
}

impl DesiredMeeting {
    /// The desired meeting that a written one stands for.
    pub fn from_input_desired_meeting(i: &InputDesiredMeeting) -> (r: Result<
        DesiredMeeting,
        InputError,
    >)
        ensures
            match r {
                Ok(m) => input_error(*i) is None && stands_for(m@, *i) && m.wf(),
                Err(e) => input_error(*i) == Some(e),
            },
    {
        let timezone: String = match &i.timezone {
            Some(z) => z.clone(),
            None => "America/Los_Angeles".to_owned(),
        };
        if !zone_known(timezone.as_str()) {
            return Err(InputError::UnknownTimezone);
        }
        let step = seconds_of(i.step);
        let duration = seconds_of(i.duration);
        let (step, duration) = match (step, duration) {
            (Some(s), Some(d)) => (s, d),
            _ => {
                return Err(InputError::BadLength);
            },
        };
        let min_d = instant_of_local(timezone.as_str(), i.min_date);
        let max_d = instant_of_local(timezone.as_str(), i.max_date);
        let (min_d, max_d) = match (min_d, max_d) {
            (Some(lo), Some(hi)) => (lo, hi),
            _ => {
                return Err(InputError::NoLocalTime);
            },
        };
        if min_d > max_d {
            return Err(InputError::MinAfterMax);
        }
        Ok(
            DesiredMeeting {
                title: i.title.clone(),
                slug: to_slug(i.title.as_str()),
                description: i.description.clone(),
                attendees: copy_strings(&i.attendees),
                min_date: min_d,
                max_date: max_d,
                step,
                duration,
                timezone,
            },
        )
    }
}

/// Whether no two meetings of the list have the same slug.
pub open spec fn slugs_distinct(ms: Seq<DesiredMeeting>) -> bool {
    forall|a: int, b: int| 0 <= a < b < ms.len() ==> ms[a].slug@ != ms[b].slug@
}

/// Whether no two meetings of the list have the same slug.
pub fn has_distinct_slugs(meetings: &Vec<DesiredMeeting>) -> (r: bool)
    ensures
        r == slugs_distinct(meetings@),
{
    let mut b: usize = 0;
    while b < meetings.len()
        invariant
            b <= meetings.len(),
            forall|x: int, y: int| 0 <= x < y < b ==> meetings[x].slug@ != meetings[y].slug@,
        decreases meetings.len() - b,
    {
        let mut a: usize = 0;
        while a < b
            invariant
                a <= b < meetings.len(),
                forall|x: int| 0 <= x < a ==> meetings[x].slug@ != meetings[b as int].slug@,
            decreases b - a,
        {
            if str_same(meetings[a].slug.as_str(), meetings[b].slug.as_str()) {
                return false;
            }
            a += 1;
        }
        b += 1;
    }
    true
}

/// The first written meeting that has something wrong, if one has.
pub open spec fn first_bad(input: Seq<InputDesiredMeeting>, from: int) -> Option<InputError>
    decreases input.len() - from,
{
    if from < 0 || from >= input.len() {
        None
    } else {
        match input_error(input[from]) {
            Some(e) => Some(e),
            None => first_bad(input, from + 1),
        }
    }
}

/// Whether the desired meetings are what the written ones stand for, one for
/// one.
pub open spec fn all_stand_for(ms: Seq<DesiredMeeting>, input: Seq<InputDesiredMeeting>) -> bool {
    &&& ms.len() == input.len()
    &&& forall|k: int|
        0 <= k < ms.len() ==> stands_for((#[trigger] ms[k])@, input[k]) && ms[k].wf()
}

/// Whether no two written meetings have titles with the same slug.
pub open spec fn titles_distinct(input: Seq<InputDesiredMeeting>) -> bool {
    forall|a: int, b: int|
        0 <= a < b < input.len() ==> slug_of(input[a].title@) != slug_of(input[b].title@)
}

/// The desired meetings that a list of written ones stands for. Fails with
/// what is wrong with the first written meeting that has something wrong;
/// and where none has, but two have the same slug.
pub fn desired_meetings_from_input(input: &Vec<InputDesiredMeeting>) -> (r: Result<
    Vec<DesiredMeeting>,
    InputError,
>)
    ensures
        r is Ok <==> first_bad(input@, 0) is None && titles_distinct(input@),
        match r {
            Ok(ms) => all_stand_for(ms@, input@) && slugs_distinct(ms@),
            Err(e) => match first_bad(input@, 0) {
                Some(bad) => e == bad,
                None => e == InputError::DuplicateSlug,
            },
        },
{
    let mut out: Vec<DesiredMeeting> = Vec::new();
    let mut k: usize = 0;
    while k < input.len()
        invariant
            k <= input.len(),
            first_bad(input@, 0) == first_bad(input@, k as int),
            all_stand_for(out@, input@.take(k as int)),
        decreases input.len() - k,
    {
        match DesiredMeeting::from_input_desired_meeting(&input[k]) {
            Ok(m) => {
                out.push(m);
            },
            Err(e) => {
                return Err(e);
            },
        }
        k += 1;
    }
    assert(input@.take(input.len() as int) =~= input@);
    proof {
        if slugs_distinct(out@) {
            assert forall|a: int, b: int| 0 <= a < b < input.len() implies slug_of(
                input[a].title@,
            ) != slug_of(input[b].title@) by {
                assert(stands_for(out[a]@, input@[a]) && stands_for(out[b]@, input@[b]));
                assert(out[a].slug@ != out[b].slug@);
            }
        }
        if titles_distinct(input@) {
            assert forall|a: int, b: int| 0 <= a < b < out.len() implies out[a].slug@
                != out[b].slug@ by {
                assert(stands_for(out[a]@, input@[a]) && stands_for(out[b]@, input@[b]));
            }
        }
    }
    if !has_distinct_slugs(&out) {
        return Err(InputError::DuplicateSlug);
    }
    Ok(out)
}

} // verus!
