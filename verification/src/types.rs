//! The data of a scheduling run: what is asked for, what is already booked,
//! what may be booked, and the policies that decide between them.

use crate::strmap::StrMap;
use crate::text::{chars_of, push_char, views};
use crate::time::{day_of, iso_weekday, local_day, weekday_of};
use crate::tree::MeetingsTree;
use vstd::prelude::*;

verus! {

/// The busy intervals of each identity, person or room.
pub type Availability = StrMap<MeetingsTree>;

/// A copy of a list of strings.
pub fn copy_strings(v: &Vec<String>) -> (r: Vec<String>)
    ensures
        r@ == v@,
{
    let mut r: Vec<String> = Vec::new();
    let mut i: usize = 0;
    while i < v.len()
        invariant
            i <= v.len(),
            r@ == v@.take(i as int),
        decreases v.len() - i,
    {
        r.push(v[i].clone());
        assert(v@.take(i + 1) =~= v@.take(i as int).push(v@[i as int]));
        i += 1;
    }
    assert(v@.take(v.len() as int) =~= v@);
    r
}

/// A copy of an optional string.
pub fn copy_opt_string(s: &Option<String>) -> (r: Option<String>)
    ensures
        r == *s,
{
    match s {
        Some(t) => Some(t.clone()),
        None => None,
    }
}

/// The text of an optional string.
pub open spec fn opt_view(s: Option<String>) -> Option<Seq<char>> {
    match s {
        Some(t) => Some(t@),
        None => None,
    }
}

/// A meeting that is already on a calendar, or a slot that may be booked: an
/// identifier and the interval `[start, end)` that it occupies, in UTC
/// seconds.
#[derive(Debug, PartialEq, Eq)]
pub struct Meeting {
    pub id: String,
    pub start: i64,
    pub end: i64,
}

/// A meeting as plain values.
pub struct MeetingView {
    pub id: Seq<char>,
    pub start: int,
    pub end: int,
}

impl View for Meeting {
    type V = MeetingView;

    open spec fn view(&self) -> MeetingView {
        MeetingView { id: self.id@, start: self.start as int, end: self.end as int }
    }
}

impl Clone for Meeting {
    fn clone(&self) -> (r: Self)
        ensures
            r@ == self@,
    {
        Meeting { id: self.id.clone(), start: self.start, end: self.end }
    }
}

/// The views of a sequence of meetings.
pub open spec fn meeting_views(v: Seq<Meeting>) -> Seq<MeetingView> {
    v.map_values(|m: Meeting| m@)
}

/// A slot that may be booked for a desired meeting: the title of that
/// meeting, the slot's identifier and interval, the room that was found free
/// for it, and its score.
#[derive(Debug, PartialEq, Eq)]
pub struct MeetingCandidate {
    pub title: String,
    pub id: String,
    pub start: i64,
    pub end: i64,
    pub room: Option<String>,
    pub score: u64,
}

/// A candidate as plain values.
pub struct CandidateView {
    pub title: Seq<char>,
    pub id: Seq<char>,
    pub start: int,
    pub end: int,
    pub room: Option<Seq<char>>,
    pub score: nat,
}

impl View for MeetingCandidate {
    type V = CandidateView;

    open spec fn view(&self) -> CandidateView {
        CandidateView {
            title: self.title@,
            id: self.id@,
            start: self.start as int,
            end: self.end as int,
            room: opt_view(self.room),
            score: self.score as nat,
        }
    }
}

impl Clone for MeetingCandidate {
    fn clone(&self) -> (r: Self)
        ensures
            r@ == self@,
    {
        MeetingCandidate {
            title: self.title.clone(),
            id: self.id.clone(),
            start: self.start,
            end: self.end,
            room: copy_opt_string(&self.room),
            score: self.score,
        }
    }
}

/// A meeting that the user wants to have: who attends, between which
/// instants, at which wall-clock hours of which zone, how long, and at which
/// step the possible starts lie. `step` and `duration` are in seconds.
#[derive(Debug, PartialEq, Eq)]
pub struct DesiredMeeting {
    pub title: String,
    pub slug: String,
    pub description: String,
    pub attendees: Vec<String>,
    pub min_date: i64,
    pub max_date: i64,
    pub step: i64,
    pub duration: i64,
    pub timezone: String,
}

/// A desired meeting as plain values.
pub struct DesiredView {
    pub title: Seq<char>,
    pub slug: Seq<char>,
    pub description: Seq<char>,
    pub attendees: Seq<Seq<char>>,
    pub min_date: int,
    pub max_date: int,
    pub step: int,
    pub duration: int,
    pub timezone: Seq<char>,
}

impl View for DesiredMeeting {
    type V = DesiredView;

    open spec fn view(&self) -> DesiredView {
        DesiredView {
            title: self.title@,
            slug: self.slug@,
            description: self.description@,
            attendees: views(self.attendees@),
            min_date: self.min_date as int,
            max_date: self.max_date as int,
            step: self.step as int,
            duration: self.duration as int,
            timezone: self.timezone@,
        }
    }
}

impl DesiredMeeting {
    /// The window is not reversed, step and duration are positive, and the
    /// slug is that of the title.
    pub open spec fn wf(&self) -> bool {
        &&& self.min_date <= self.max_date
        &&& self.step > 0
        &&& self.duration > 0
        &&& self.slug@ == slug_of(self.title@)
    }
}

impl DesiredMeeting {
    /// Whether the window is not reversed, step and duration are positive,
    /// and the slug is that of the title.
    pub fn is_wf(&self) -> (r: bool)
        ensures
            r == self.wf(),
    {
        if self.min_date > self.max_date || self.step <= 0 || self.duration <= 0 {
            return false;
        }
        let slug = to_slug(self.title.as_str());
        crate::strmap::str_same(slug.as_str(), self.slug.as_str())
    }
}

/// The views of a sequence of desired meetings.
pub open spec fn desired_views(v: Seq<DesiredMeeting>) -> Seq<DesiredView> {
    v.map_values(|m: DesiredMeeting| m@)
}

impl Clone for DesiredMeeting {
    fn clone(&self) -> (r: Self)
        ensures
            r@ == self@,
            r.wf() == self.wf(),
    {
        let attendees = copy_strings(&self.attendees);
        DesiredMeeting {
            title: self.title.clone(),
            slug: self.slug.clone(),
            description: self.description.clone(),
            attendees,
            min_date: self.min_date,
            max_date: self.max_date,
            step: self.step,
            duration: self.duration,
            timezone: self.timezone.clone(),
        }
    }
}

/// Which desired meeting got which candidate, under the meeting's title.
pub type Assignment = StrMap<(DesiredMeeting, MeetingCandidate)>;

/// How a run ended: whether an optimal schedule was found, and the schedule.
/// Where none was found the schedule is empty.
#[derive(Debug, PartialEq, Eq)]
pub struct Solution {
    pub solved: bool,
    pub candidates: Assignment,
}

impl Solution {
    /// The solution for what the solver answered: solved with its assignment,
    /// or unsolved with none.
    pub fn from_answer(answer: Option<Assignment>) -> (s: Solution)
        ensures
            s.solved == answer is Some,
            answer matches Some(a) ==> s.candidates == a,
            answer is None ==> s.candidates.wf() && s.candidates.keys@.len() == 0,
    {
        match answer {
            Some(a) => Solution { solved: true, candidates: a },
            None => Solution { solved: false, candidates: StrMap::new() },
        }
    }
}

/// Whether a character is kept in a slug: an ASCII letter or digit.
pub open spec fn is_slug_char(c: char) -> bool {
    ||| 'a' as int <= c as int <= 'z' as int
    ||| 'A' as int <= c as int <= 'Z' as int
    ||| '0' as int <= c as int <= '9' as int
}

/// The slug of a title: its ASCII letters and digits, in order.
pub open spec fn slug_of(title: Seq<char>) -> Seq<char> {
    title.filter(|c: char| is_slug_char(c))
}

/// A title of ASCII letters and digits only is its own slug.
pub proof fn lemma_slug_of_plain(title: Seq<char>)
    requires
        forall|i: int| 0 <= i < title.len() ==> is_slug_char(#[trigger] title[i]),
    ensures
        slug_of(title) == title,
    decreases title.len(),
{
    reveal(Seq::filter);
    if title.len() > 0 {
        lemma_slug_of_plain(title.drop_last());
        assert(title.drop_last().push(title.last()) =~= title);
    }
}

/// The slug of a title: its ASCII letters and digits, in order.
pub fn to_slug(s: &str) -> (r: String)
    ensures
        r@ == slug_of(s@),
{
    let chars = chars_of(s);
    let mut out = String::new();
    let mut i: usize = 0;
    proof {
        reveal(Seq::filter);
        assert(chars@.take(0) =~= Seq::<char>::empty());
    }
    while i < chars.len()
        invariant
            i <= chars.len(),
            chars@ == s@,
            out@ == slug_of(chars@.take(i as int)),
        decreases chars.len() - i,
    {
        let c = chars[i];
        proof {
            reveal(Seq::filter);
            let next = chars@.take(i + 1);
            assert(next.drop_last() =~= chars@.take(i as int));
            assert(next.last() == c);
        }
        if (c >= 'a' && c <= 'z') || (c >= 'A' && c <= 'Z') || (c >= '0' && c <= '9') {
            push_char(&mut out, c);
        }
        i += 1;
    }
    assert(chars@.take(chars.len() as int) =~= chars@);
    out
}

/// A time of day as hours, minutes and seconds.
#[derive(Debug, PartialEq, Eq, Clone, Copy)]
pub struct HourSpec {
    pub hours: u32,
    pub minutes: u32,
    pub seconds: u32,
}

impl HourSpec {
    /// The time in seconds since midnight.
    pub open spec fn spec_seconds(&self) -> int {
        self.hours * 3600 + self.minutes * 60 + self.seconds
    }

    /// Whether this is a time of the clock: hours below 24, minutes and
    /// seconds below 60.
    pub open spec fn spec_valid(&self) -> bool {
        self.hours < 24 && self.minutes < 60 && self.seconds < 60
    }

    /// The time in seconds since midnight.
    pub fn seconds_of_day(&self) -> (r: i64)
        ensures
            r == self.spec_seconds(),
    {
        let h: i64 = self.hours as i64;
        let m: i64 = self.minutes as i64;
        let s: i64 = self.seconds as i64;
        h * 3600 + m * 60 + s
    }

    /// Whether this is a time of the clock.
    pub fn is_valid(&self) -> (r: bool)
        ensures
            r == self.spec_valid(),
    {
        self.hours < 24 && self.minutes < 60 && self.seconds < 60
    }
}

/// A stretch of the day, from one time of day to another.
#[derive(Debug, PartialEq, Eq, Clone, Copy)]
pub struct HourRange {
    pub from: HourSpec,
    pub to: HourSpec,
}

/// Whether the wall-clock interval `[start, end)` meets the stretch from
/// `from` to `to` seconds after midnight on the day of `start`.
pub open spec fn meets_hours(start: int, end: int, from: int, to: int) -> bool {
    start < day_of(start) * 86_400 + to && end > day_of(start) * 86_400 + from
}

/// Whether the wall-clock interval `[start, end)` meets the stretch from
/// `from` to `to` seconds after midnight on the day of `start`.
pub fn interval_meets_hours(start: i64, end: i64, from: i64, to: i64) -> (r: bool)
    ensures
        r == meets_hours(start as int, end as int, from as int, to as int),
{
    let midnight: i128 = (local_day(start) as i128) * 86_400;
    (start as i128) < midnight + (to as i128) && (end as i128) > midnight + (from as i128)
}

/// Whether one of the stretches meets the wall-clock interval.
pub open spec fn meets_any(ranges: Seq<HourRange>, start: int, end: int) -> bool {
    exists|k: int|
        0 <= k < ranges.len() && meets_hours(
            start,
            end,
            (#[trigger] ranges[k]).from.spec_seconds(),
            ranges[k].to.spec_seconds(),
        )
}

/// Whether a weekday is in the list.
pub open spec fn lists_weekday(days: Seq<u32>, weekday: int) -> bool {
    exists|k: int| 0 <= k < days.len() && #[trigger] days[k] as int == weekday
}

/// Whether every stretch is given in times of the clock.
pub open spec fn all_valid(ranges: Seq<HourRange>) -> bool {
    forall|k: int|
        0 <= k < ranges.len() ==> (#[trigger] ranges[k]).from.spec_valid()
            && ranges[k].to.spec_valid()
}

/// Whether a day falls on the weekdays that are left free by default:
/// Wednesday, Saturday and Sunday.
pub open spec fn default_rejects_date(day: int) -> bool {
    iso_weekday(day) == 3 || iso_weekday(day) == 6 || iso_weekday(day) == 7
}

/// Whether a wall-clock interval meets the lunch hour of its day, noon to
/// one o'clock.
pub open spec fn default_rejects_datetime(start: int, end: int) -> bool {
    meets_hours(start, end, 43_200, 46_800)
}

/// Rooms that can be booked, the weekdays and hours that are left free, and
/// which events of a calendar count as busy.
#[derive(Debug, PartialEq, Eq)]
pub struct Config {
    pub small_rooms: Option<Vec<String>>,
    pub large_rooms: Option<Vec<String>>,
    pub reject_iso_weekday: Option<Vec<u32>>,
    pub reject_hour_range: Option<Vec<HourRange>>,
    pub ignore_all_day_events: bool,
    pub ignore_meetings_with_no_response: bool,
}

/// The texts of an optional list of strings.
pub open spec fn opt_views(v: Option<Vec<String>>) -> Option<Seq<Seq<char>>> {
    match v {
        Some(l) => Some(views(l@)),
        None => None,
    }
}

/// A copy of an optional list of strings.
pub fn copy_opt_strings(v: &Option<Vec<String>>) -> (r: Option<Vec<String>>)
    ensures
        opt_views(r) == opt_views(*v),
        r is Some == v is Some,
        r matches Some(l) ==> l@ == v->0@,
{
    match v {
        Some(l) => Some(copy_strings(l)),
        None => None,
    }
}

/// The weekdays of an optional list.
pub open spec fn days_view(v: Option<Vec<u32>>) -> Option<Seq<u32>> {
    match v {
        Some(l) => Some(l@),
        None => None,
    }
}

/// The stretches of an optional list.
pub open spec fn hours_view(v: Option<Vec<HourRange>>) -> Option<Seq<HourRange>> {
    match v {
        Some(l) => Some(l@),
        None => None,
    }
}

impl Config {
    /// The pool of rooms for a meeting of `size` attendees: the small rooms
    /// up to two, the large ones above.
    pub open spec fn spec_rooms(&self, size: int) -> Option<Seq<Seq<char>>> {
        if size <= 2 {
            opt_views(self.small_rooms)
        } else {
            opt_views(self.large_rooms)
        }
    }

    /// Whether the day's ISO weekday is among those left free.
    pub open spec fn spec_rejects_date(&self, day: int) -> bool {
        match self.reject_iso_weekday {
            Some(l) => lists_weekday(l@, iso_weekday(day)),
            None => false,
        }
    }

    /// Whether the wall-clock interval meets one of the hours left free, on
    /// the day of its start.
    pub open spec fn spec_rejects_datetime(&self, start: int, end: int) -> bool {
        match self.reject_hour_range {
            Some(l) => meets_any(l@, start, end),
            None => false,
        }
    }

    /// Whether every stretch of hours is given in times of the clock.
    pub open spec fn spec_valid(&self) -> bool {
        match self.reject_hour_range {
            Some(l) => all_valid(l@),
            None => true,
        }
    }

    /// The pool of rooms for a meeting of `size` attendees.
    pub fn room_picker(&self, size: usize) -> (r: Option<Vec<String>>)
        ensures
            opt_views(r) == self.spec_rooms(size as int),
    {
        if size <= 2 {
            copy_opt_strings(&self.small_rooms)
        } else {
            copy_opt_strings(&self.large_rooms)
        }
    }

    /// Whether the day, counted from 1970-01-01, is left free.
    pub fn reject_date_fn(&self, day: i64) -> (r: bool)
        ensures
            r == self.spec_rejects_date(day as int),
    {
        match &self.reject_iso_weekday {
            Some(l) => {
                let cur = weekday_of(day);
                let mut k: usize = 0;
                while k < l.len()
                    invariant
                        k <= l.len(),
                        self.reject_iso_weekday == Some(*l),
                        cur == iso_weekday(day as int),
                        forall|j: int| 0 <= j < k ==> l@[j] != cur,
                    decreases l.len() - k,
                {
                    if l[k] == cur {
                        assert(l@[k as int] == iso_weekday(day as int));
                        return true;
                    }
                    k += 1;
                }
                false
            },
            None => false,
        }
    }

    /// Whether the wall-clock interval `[start, end)` is left free.
    pub fn reject_datetime_fn(&self, start: i64, end: i64) -> (r: bool)
        ensures
            r == self.spec_rejects_datetime(start as int, end as int),
    {
        match &self.reject_hour_range {
            Some(l) => {
                let mut k: usize = 0;
                while k < l.len()
                    invariant
                        k <= l.len(),
                        self.reject_hour_range == Some(*l),
                        forall|j: int|
                            0 <= j < k ==> !meets_hours(
                                start as int,
                                end as int,
                                (#[trigger] l@[j]).from.spec_seconds(),
                                l@[j].to.spec_seconds(),
                            ),
                    decreases l.len() - k,
                {
                    let from = l[k].from.seconds_of_day();
                    let to = l[k].to.seconds_of_day();
                    if interval_meets_hours(start, end, from, to) {
                        assert(meets_hours(
                            start as int,
                            end as int,
                            l@[k as int].from.spec_seconds(),
                            l@[k as int].to.spec_seconds(),
                        ));
                        return true;
                    }
                    k += 1;
                }
                false
            },
            None => false,
        }
    }

    /// Whether every stretch of hours is given in times of the clock.
    pub fn is_valid(&self) -> (r: bool)
        ensures
            r == self.spec_valid(),
    {
        match &self.reject_hour_range {
            Some(l) => {
                let mut k: usize = 0;
                while k < l.len()
                    invariant
                        k <= l.len(),
                        self.reject_hour_range == Some(*l),
                        forall|j: int|
                            0 <= j < k ==> (#[trigger] l@[j]).from.spec_valid()
                                && l@[j].to.spec_valid(),
                    decreases l.len() - k,
                {
                    if !(l[k].from.is_valid() && l[k].to.is_valid()) {
                        assert(!(l@[k as int].from.spec_valid() && l@[k as int].to.spec_valid()));
                        return false;
                    }
                    k += 1;
                }
                true
            },
            None => true,
        }
    }
}

impl Clone for Config {
    fn clone(&self) -> (r: Self)
        ensures
            opt_views(r.small_rooms) == opt_views(self.small_rooms),
            opt_views(r.large_rooms) == opt_views(self.large_rooms),
            days_view(r.reject_iso_weekday) == days_view(self.reject_iso_weekday),
            hours_view(r.reject_hour_range) == hours_view(self.reject_hour_range),
            r.ignore_all_day_events == self.ignore_all_day_events,
            r.ignore_meetings_with_no_response == self.ignore_meetings_with_no_response,
    {
        let days = match &self.reject_iso_weekday {
            Some(l) => {
                let c = l.clone();
                assert(c@ =~= l@);
                Some(c)
            },
            None => None,
        };
        let hours = match &self.reject_hour_range {
            Some(l) => {
                let c = l.clone();
                assert(c@ =~= l@);
                Some(c)
            },
            None => None,
        };
        Config {
            small_rooms: copy_opt_strings(&self.small_rooms),
            large_rooms: copy_opt_strings(&self.large_rooms),
            reject_iso_weekday: days,
            reject_hour_range: hours,
            ignore_all_day_events: self.ignore_all_day_events,
            ignore_meetings_with_no_response: self.ignore_meetings_with_no_response,
        }
    }
}

/// Whether a day, counted from 1970-01-01, is left free by default.
pub fn default_reject_date(day: i64) -> (r: bool)
    ensures
        r == default_rejects_date(day as int),
{
    let w = weekday_of(day);
    w == 3 || w == 6 || w == 7
}

/// Whether a wall-clock interval is left free by default.
pub fn default_reject_datetime(start: i64, end: i64) -> (r: bool)
    ensures
        r == default_rejects_datetime(start as int, end as int),
{
    interval_meets_hours(start, end, 43_200, 46_800)
}

/// How rooms are picked for a meeting.
#[derive(Debug, PartialEq, Eq)]
pub enum RoomPicker {
    /// No meeting needs a room.
    NoRoom,
    /// Every meeting takes its room from this pool.
    Fixed(Vec<String>),
    /// The pool depends on the number of attendees, as the configuration says.
    BySize(Config),
}

impl RoomPicker {
    /// The pool for a meeting of `size` attendees; `None` where no room is
    /// needed.
    pub open spec fn spec_pick(&self, size: int) -> Option<Seq<Seq<char>>> {
        match self {
            RoomPicker::NoRoom => None,
            RoomPicker::Fixed(pool) => Some(views(pool@)),
            RoomPicker::BySize(config) => config.spec_rooms(size),
        }
    }

    /// The pool for a meeting of `size` attendees.
    pub fn pick(&self, size: usize) -> (r: Option<Vec<String>>)
        ensures
            opt_views(r) == self.spec_pick(size as int),
    {
        match self {
            RoomPicker::NoRoom => None,
            RoomPicker::Fixed(pool) => Some(copy_strings(pool)),
            RoomPicker::BySize(config) => config.room_picker(size),
        }
    }
}

/// Which days are left free.
#[derive(Debug, PartialEq, Eq)]
pub enum DateRejector {
    /// Wednesdays, Saturdays and Sundays.
    Standard,
    /// The ISO weekdays that the configuration names.
    FromConfig(Config),
}

impl DateRejector {
    /// Whether the day is left free.
    pub open spec fn spec_reject(&self, day: int) -> bool {
        match self {
            DateRejector::Standard => default_rejects_date(day),
            DateRejector::FromConfig(config) => config.spec_rejects_date(day),
        }
    }

    /// Whether the day is left free.
    pub fn reject(&self, day: i64) -> (r: bool)
        ensures
            r == self.spec_reject(day as int),
    {
        match self {
            DateRejector::Standard => default_reject_date(day),
            DateRejector::FromConfig(config) => config.reject_date_fn(day),
        }
    }
}

/// Which hours are left free.
#[derive(Debug, PartialEq, Eq)]
pub enum DateTimeRejector {
    /// The lunch hour, noon to one o'clock.
    Standard,
    /// The hours that the configuration names.
    FromConfig(Config),
}

impl DateTimeRejector {
    /// Whether the wall-clock interval is left free.
    pub open spec fn spec_reject(&self, start: int, end: int) -> bool {
        match self {
            DateTimeRejector::Standard => default_rejects_datetime(start, end),
            DateTimeRejector::FromConfig(config) => config.spec_rejects_datetime(start, end),
        }
    }

    /// Whether the wall-clock interval is left free.
    pub fn reject(&self, start: i64, end: i64) -> (r: bool)
        ensures
            r == self.spec_reject(start as int, end as int),
    {
        match self {
            DateTimeRejector::Standard => default_reject_datetime(start, end),
            DateTimeRejector::FromConfig(config) => config.reject_datetime_fn(start, end),
        }
    }
}

/// The policies of a run.
#[derive(Debug, PartialEq, Eq)]
pub struct Options {
    /// Where a meeting of a given size may take place.
    pub room_picker_fn: RoomPicker,
    /// Which days are left free.
    pub reject_date_fn: DateRejector,
    /// Which hours are left free.
    pub reject_datetime_fn: DateTimeRejector,
    /// Whether events that last whole days are left out of the calendars.
    pub ignore_all_day_events: bool,
    /// Whether events that an identity declined or did not answer are left
    /// out of its calendar.
    pub ignore_meetings_with_no_response: bool,
    /// Whether slots that lie in the past are considered too.
    pub consider_meetings_in_the_past: bool,
}

impl Default for Options {
    fn default() -> (o: Self)
        ensures
            o.room_picker_fn == RoomPicker::NoRoom,
            o.reject_date_fn == DateRejector::Standard,
            o.reject_datetime_fn == DateTimeRejector::Standard,
            o.ignore_all_day_events,
            o.ignore_meetings_with_no_response,
            !o.consider_meetings_in_the_past,
    {
        Options {
            room_picker_fn: RoomPicker::NoRoom,
            reject_date_fn: DateRejector::Standard,
            reject_datetime_fn: DateTimeRejector::Standard,
            ignore_all_day_events: true,
            ignore_meetings_with_no_response: true,
            consider_meetings_in_the_past: false,
        }
    }
}

impl Options {
    /// The policies that a configuration asks for.
    pub fn from_config(config: &Config) -> (o: Self)
        ensures
            o.room_picker_fn matches RoomPicker::BySize(c) && forall|n: int|
                c.spec_rooms(n) == config.spec_rooms(n),
            o.reject_date_fn matches DateRejector::FromConfig(c) && forall|d: int|
                c.spec_rejects_date(d) == config.spec_rejects_date(d),
            o.reject_datetime_fn matches DateTimeRejector::FromConfig(c) && forall|s: int, e: int|
                c.spec_rejects_datetime(s, e) == config.spec_rejects_datetime(s, e),
            o.ignore_all_day_events == config.ignore_all_day_events,
            o.ignore_meetings_with_no_response == config.ignore_meetings_with_no_response,
            !o.consider_meetings_in_the_past,
    {
        Options {
            room_picker_fn: RoomPicker::BySize(config.clone()),
            reject_date_fn: DateRejector::FromConfig(config.clone()),
            reject_datetime_fn: DateTimeRejector::FromConfig(config.clone()),
            ignore_all_day_events: config.ignore_all_day_events,
            ignore_meetings_with_no_response: config.ignore_meetings_with_no_response,
            consider_meetings_in_the_past: false,
        }
    }
}

} // verus!
