//! The slot generator: the slots of a desired meeting, day by day, on the
//! wall clock of the meeting's zone.

use crate::text::{
    decimal, is_digit, lemma_decimal_digits, lemma_decimal_injective, lemma_split_at_last,
    push_char, push_decimal,
};
use crate::time::{
    day_of, day_start, local_day, local_of_instant, local_time, time_of, widen, zone_day_start,
    zone_local,
};
use crate::types::{
    meeting_views, DateRejector, DateTimeRejector, DesiredMeeting, DesiredView, Meeting,
    MeetingView,
};
use vstd::prelude::*;

verus! {

/// Why no slots could be generated.
#[derive(Debug, PartialEq, Eq, Clone, Copy)]
pub enum SlotError {
    /// The window's bounds have no wall-clock time: the zone is unknown or an
    /// instant is out of range.
    NoLocalTime,
    /// On some day that is not left free, the earliest start is a wall-clock
    /// time that the zone skips or shows twice.
    NoDayStart,
}

/// What becomes of the slot that is next in line on a day.
#[derive(Debug, PartialEq, Eq, Clone, Copy)]
pub enum SlotVerdict {
    /// The slot ends after the day's window: the day is done.
    Stop,
    /// The slot is left out; the next one is looked at.
    Skip,
    /// The slot is handed out.
    Emit,
}

/// The verdict on a slot whose start and end show the wall-clock times
/// `local_start` and `local_end`, if any. The day is done when the end is not
/// on the day or later than `max_time`. A slot is left out when its start is
/// not on the day at `min_time` or later, or when the hours are left free.
pub open spec fn spec_judge(
    hours: DateTimeRejector,
    day: int,
    min_time: int,
    max_time: int,
    local_start: Option<int>,
    local_end: Option<int>,
) -> SlotVerdict {
    match local_end {
        None => SlotVerdict::Stop,
        Some(le) => if day_of(le) != day || time_of(le) > max_time {
            SlotVerdict::Stop
        } else {
            match local_start {
                None => SlotVerdict::Skip,
                Some(ls) => if day_of(ls) != day || time_of(ls) < min_time || hours.spec_reject(
                    ls,
                    le,
                ) {
                    SlotVerdict::Skip
                } else {
                    SlotVerdict::Emit
                },
            }
        },
    }
}

/// The verdict on a slot, from the wall-clock times of its start and end.
pub fn judge_slot(
    hours: &DateTimeRejector,
    day: i64,
    min_time: i64,
    max_time: i64,
    local_start: Option<i64>,
    local_end: Option<i64>,
) -> (v: SlotVerdict)
    ensures
        v == spec_judge(
            *hours,
            day as int,
            min_time as int,
            max_time as int,
            widen(local_start),
            widen(local_end),
        ),
{
    match local_end {
        None => SlotVerdict::Stop,
        Some(le) => {
            if local_day(le) != day || local_time(le) > max_time {
                SlotVerdict::Stop
            } else {
                match local_start {
                    None => SlotVerdict::Skip,
                    Some(ls) => {
                        if local_day(ls) != day || local_time(ls) < min_time || hours.reject(
                            ls,
                            le,
                        ) {
                            SlotVerdict::Skip
                        } else {
                            SlotVerdict::Emit
                        }
                    },
                }
            }
        },
    }
}

/// The verdict on the slot `[start, end)` in a zone.
pub open spec fn verdict(
    zone: Seq<char>,
    hours: DateTimeRejector,
    day: int,
    min_time: int,
    max_time: int,
    start: int,
    end: int,
) -> SlotVerdict {
    spec_judge(hours, day, min_time, max_time, zone_local(zone, start), zone_local(zone, end))
}

/// The identifier of a slot: that of its day, an underscore, and the slot's
/// number among those handed out on the day.
pub open spec fn slot_id(day_id: Seq<char>, index: nat) -> Seq<char> {
    day_id + seq!['_'] + decimal(index)
}

/// The identifier of a day: the meeting's slug, an underscore, and the day's
/// number among those that are not left free.
pub open spec fn day_id(slug: Seq<char>, day_index: nat) -> Seq<char> {
    slug + seq!['_'] + decimal(day_index)
}

/// The identifier of the slot with the number `index` on the day with the
/// number `day_index`.
pub open spec fn full_id(slug: Seq<char>, day_index: nat, index: nat) -> Seq<char> {
    slot_id(day_id(slug, day_index), index)
}

/// An identifier tells the slug, the day and the slot that it was made of.
pub proof fn lemma_full_id_injective(
    slug: Seq<char>,
    day_index: nat,
    index: nat,
    other_slug: Seq<char>,
    other_day: nat,
    other_index: nat,
)
    requires
        full_id(slug, day_index, index) == full_id(other_slug, other_day, other_index),
    ensures
        slug == other_slug,
        day_index == other_day,
        index == other_index,
{
    lemma_decimal_digits(index);
    lemma_decimal_digits(other_index);
    lemma_decimal_digits(day_index);
    lemma_decimal_digits(other_day);
    lemma_no_underscore(decimal(index));
    lemma_no_underscore(decimal(other_index));
    lemma_no_underscore(decimal(day_index));
    lemma_no_underscore(decimal(other_day));
    lemma_split_at_last(
        day_id(slug, day_index),
        decimal(index),
        day_id(other_slug, other_day),
        decimal(other_index),
        '_',
    );
    lemma_split_at_last(slug, decimal(day_index), other_slug, decimal(other_day), '_');
    lemma_decimal_injective(index, other_index);
    lemma_decimal_injective(day_index, other_day);
}

/// Digits hold no underscore.
proof fn lemma_no_underscore(s: Seq<char>)
    requires
        forall|k: int| 0 <= k < s.len() ==> is_digit(#[trigger] s[k]),
    ensures
        !s.contains('_'),
{
    if s.contains('_') {
        let k = choose|k: int| 0 <= k < s.len() && s[k] == '_';
        assert(is_digit(s[k]));
    }
}

/// What is left to count down while the slots of a day are walked: a slot
/// that ends on the day starts less than two days after the day began.
pub open spec fn day_fuel(day: int, start: int) -> int {
    if start < (day + 2) * 86_400 {
        (day + 2) * 86_400 - start
    } else {
        0
    }
}

/// The slots of one day from the instant `start` on: every `step` seconds a
/// slot of `duration` seconds, until one ends after the day's window; those
/// left out are passed over, the others numbered from `index`.
pub open spec fn day_slots(
    zone: Seq<char>,
    hours: DateTimeRejector,
    day: int,
    min_time: int,
    max_time: int,
    step: int,
    duration: int,
    id: Seq<char>,
    start: int,
    index: nat,
) -> Seq<MeetingView>
    decreases day_fuel(day, start),
{
    let end = start + duration;
    let v = verdict(zone, hours, day, min_time, max_time, start, end);
    if step <= 0 || duration <= 0 || v == SlotVerdict::Stop {
        Seq::empty()
    } else if v == SlotVerdict::Skip {
        day_slots(zone, hours, day, min_time, max_time, step, duration, id, start + step, index)
    } else {
        seq![MeetingView { id: slot_id(id, index), start, end }] + day_slots(
            zone,
            hours,
            day,
            min_time,
            max_time,
            step,
            duration,
            id,
            start + step,
            index + 1,
        )
    }
}

/// The slots of one day: those from the instant at which the zone's clocks
/// show `min_time` on the day; none where there is no such single instant.
pub open spec fn slots_of_day(
    zone: Seq<char>,
    hours: DateTimeRejector,
    day: int,
    min_time: int,
    max_time: int,
    step: int,
    duration: int,
    id: Seq<char>,
) -> Option<Seq<MeetingView>> {
    match zone_day_start(zone, day, min_time) {
        Some(first) => Some(
            day_slots(zone, hours, day, min_time, max_time, step, duration, id, first, 0),
        ),
        None => None,
    }
}

/// What holds of a slot that was handed out for a day: it lasts `duration`
/// seconds, starts and ends on the day between `min_time` and `max_time` on
/// the wall clock, and its hours are not left free.
pub open spec fn slot_ok(
    zone: Seq<char>,
    hours: DateTimeRejector,
    day: int,
    min_time: int,
    max_time: int,
    duration: int,
    m: MeetingView,
) -> bool {
    &&& m.end - m.start == duration
    &&& verdict(zone, hours, day, min_time, max_time, m.start, m.end) == SlotVerdict::Emit
}

/// Every slot of the list is one that may be handed out for the day.
pub open spec fn all_slots_ok(
    zone: Seq<char>,
    hours: DateTimeRejector,
    day: int,
    min_time: int,
    max_time: int,
    duration: int,
    slots: Seq<MeetingView>,
) -> bool {
    forall|i: int|
        0 <= i < slots.len() ==> slot_ok(
            zone,
            hours,
            day,
            min_time,
            max_time,
            duration,
            #[trigger] slots[i],
        )
}

/// Whether the slots carry the numbers 0, 1, 2 and so on under the day's
/// identifier.
pub open spec fn numbered(slots: Seq<MeetingView>, id: Seq<char>) -> bool {
    forall|j: int| 0 <= j < slots.len() ==> (#[trigger] slots[j]).id == slot_id(id, j as nat)
}

/// Whether an identifier is that of a slot of a meeting with the slug, on a
/// day with a number below `days`.
pub open spec fn made_before(slug: Seq<char>, days: nat, id: Seq<char>) -> bool {
    exists|d: nat, k: nat| d < days && id == #[trigger] full_id(slug, d, k)
}

/// Whether an identifier is that of a slot of a meeting with the slug.
pub open spec fn is_id_of(slug: Seq<char>, id: Seq<char>) -> bool {
    exists|d: nat, k: nat| id == #[trigger] full_id(slug, d, k)
}

/// Whether every slot carries an identifier of the slug, and no two slots the
/// same.
pub open spec fn ids_ok(slots: Seq<MeetingView>, slug: Seq<char>) -> bool {
    &&& forall|p: int| 0 <= p < slots.len() ==> is_id_of(slug, (#[trigger] slots[p]).id)
    &&& forall|p: int, q: int|
        0 <= p < q < slots.len() ==> (#[trigger] slots[p]).id != (#[trigger] slots[q]).id
}

/// The identifier of the slot with the given number on a day.
fn make_slot_id(id: &str, index: u64) -> (r: String)
    ensures
        r@ == slot_id(id@, index as nat),
{
    let mut out = id.to_owned();
    push_char(&mut out, '_');
    push_decimal(&mut out, index);
    assert(out@ =~= slot_id(id@, index as nat));
    out
}

/// The slots of one day for a zone: from `min_time` on the wall clock, every
/// `step` seconds a slot of `duration` seconds, until one ends after
/// `max_time` or after the day; a slot whose hours are left free is passed
/// over.
pub fn generate_meetings_for_date(
    zone: &str,
    day: i64,
    min_time: i64,
    max_time: i64,
    step: i64,
    duration: i64,
    id: &str,
    hours: &DateTimeRejector,
) -> (r: Result<Vec<Meeting>, SlotError>)
    ensures
        match r {
            Ok(l) => {
                &&& slots_of_day(
                    zone@,
                    *hours,
                    day as int,
                    min_time as int,
                    max_time as int,
                    step as int,
                    duration as int,
                    id@,
                ) == Some(meeting_views(l@))
                &&& all_slots_ok(
                    zone@,
                    *hours,
                    day as int,
                    min_time as int,
                    max_time as int,
                    duration as int,
                    meeting_views(l@),
                )
                &&& numbered(meeting_views(l@), id@)
            },
            Err(e) => {
                &&& e == SlotError::NoDayStart
                &&& slots_of_day(
                    zone@,
                    *hours,
                    day as int,
                    min_time as int,
                    max_time as int,
                    step as int,
                    duration as int,
                    id@,
                ) is None
            },
        },
{
    let first = match day_start(zone, day, min_time) {
        Some(f) => f,
        None => {
            return Err(SlotError::NoDayStart);
        },
    };
    let mut res: Vec<Meeting> = Vec::new();
    if step <= 0 || duration <= 0 {
        assert(meeting_views(res@) =~= Seq::<MeetingView>::empty());
        return Ok(res);
    }
    let mut t: i64 = first;
    let mut index: u64 = 0;
    let ghost whole = day_slots(
        zone@,
        *hours,
        day as int,
        min_time as int,
        max_time as int,
        step as int,
        duration as int,
        id@,
        first as int,
        0,
    );
    assert(meeting_views(res@) + whole =~= whole);
    loop
        invariant
            step > 0,
            duration > 0,
            first <= t,
            index <= t - first,
            index == res.len(),
            numbered(meeting_views(res@), id@),
            meeting_views(res@) + day_slots(
                zone@,
                *hours,
                day as int,
                min_time as int,
                max_time as int,
                step as int,
                duration as int,
                id@,
                t as int,
                index as nat,
            ) == whole,
            all_slots_ok(
                zone@,
                *hours,
                day as int,
                min_time as int,
                max_time as int,
                duration as int,
                meeting_views(res@),
            ),
            zone_day_start(zone@, day as int, min_time as int) == Some(first as int),
            whole == day_slots(
                zone@,
                *hours,
                day as int,
                min_time as int,
                max_time as int,
                step as int,
                duration as int,
                id@,
                first as int,
                0,
            ),
        decreases day_fuel(day as int, t as int),
    {
        let ghost rest = day_slots(
            zone@,
            *hours,
            day as int,
            min_time as int,
            max_time as int,
            step as int,
            duration as int,
            id@,
            t as int,
            index as nat,
        );
        let end = match t.checked_add(duration) {
            Some(e) => e,
            None => {
                assert(meeting_views(res@) + rest =~= meeting_views(res@));
                return Ok(res);
            },
        };
        let ls = local_of_instant(zone, t);
        let le = local_of_instant(zone, end);
        match judge_slot(hours, day, min_time, max_time, ls, le) {
            SlotVerdict::Stop => {
                assert(meeting_views(res@) + rest =~= meeting_views(res@));
                return Ok(res);
            },
            SlotVerdict::Skip => {},
            SlotVerdict::Emit => {
                let ghost before = meeting_views(res@);
                let m = Meeting { id: make_slot_id(id, index), start: t, end };
                res.push(m);
                proof {
                    let after = meeting_views(res@);
                    assert(after =~= before.push(m@));
                    let tail = day_slots(
                        zone@,
                        *hours,
                        day as int,
                        min_time as int,
                        max_time as int,
                        step as int,
                        duration as int,
                        id@,
                        t + step,
                        (index + 1) as nat,
                    );
                    assert(rest == seq![m@] + tail);
                    assert(after + tail =~= before + rest);
                }
                index += 1;
            },
        }
        match t.checked_add(step) {
            Some(n) => {
                t = n;
            },
            None => {
                proof {
                    let tail = day_slots(
                        zone@,
                        *hours,
                        day as int,
                        min_time as int,
                        max_time as int,
                        step as int,
                        duration as int,
                        id@,
                        t + step,
                        index as nat,
                    );
                    assert(tail =~= Seq::<MeetingView>::empty());
                    assert(meeting_views(res@) + tail =~= meeting_views(res@));
                }
                return Ok(res);
            },
        }
    }
}

/// The days that are left to walk, counting the day `day` itself.
pub open spec fn days_left(day: int, last_day: int) -> int {
    if day <= last_day {
        last_day - day + 1
    } else {
        0
    }
}

/// The slots of the days from `day` to `last_day`: the days that are left
/// free give none, the others are numbered from `day_index` and give theirs;
/// all is lost where one of them has no single first instant.
pub open spec fn slots_from(
    tm: DesiredView,
    dates: DateRejector,
    hours: DateTimeRejector,
    last_day: int,
    min_time: int,
    max_time: int,
    day: int,
    day_index: nat,
) -> Option<Seq<MeetingView>>
    decreases days_left(day, last_day),
{
    if day > last_day {
        Some(Seq::empty())
    } else if dates.spec_reject(day) {
        slots_from(tm, dates, hours, last_day, min_time, max_time, day + 1, day_index)
    } else {
        match slots_of_day(
            tm.timezone,
            hours,
            day,
            min_time,
            max_time,
            tm.step,
            tm.duration,
            day_id(tm.slug, day_index),
        ) {
            None => None,
            Some(today) => match slots_from(
                tm,
                dates,
                hours,
                last_day,
                min_time,
                max_time,
                day + 1,
                day_index + 1,
            ) {
                None => None,
                Some(rest) => Some(today + rest),
            },
        }
    }
}

/// The slots of a desired meeting: on the wall clock of its zone, the days
/// from that of `min_date` to that of `max_date`, each from the time of day of
/// `min_date` to that of `max_date`.
pub open spec fn spec_slots(tm: DesiredView, dates: DateRejector, hours: DateTimeRejector) -> Option<
    Seq<MeetingView>,
> {
    match (zone_local(tm.timezone, tm.min_date), zone_local(tm.timezone, tm.max_date)) {
        (Some(lmin), Some(lmax)) => slots_from(
            tm,
            dates,
            hours,
            day_of(lmax),
            time_of(lmin),
            time_of(lmax),
            day_of(lmin),
            0,
        ),
        _ => None,
    }
}

/// Why the slots of a desired meeting cannot be generated, if they cannot.
pub open spec fn spec_slot_error(
    tm: DesiredView,
    dates: DateRejector,
    hours: DateTimeRejector,
) -> Option<SlotError> {
    if zone_local(tm.timezone, tm.min_date) is None || zone_local(tm.timezone, tm.max_date)
        is None {
        Some(SlotError::NoLocalTime)
    } else if spec_slots(tm, dates, hours) is None {
        Some(SlotError::NoDayStart)
    } else {
        None
    }
}

/// What holds of every slot of a desired meeting: it lasts as long as the
/// meeting; on the wall clock of the zone it starts no earlier than
/// `min_date` and ends no later than `max_date`, starts and ends on one day,
/// between the times of day of `min_date` and `max_date`; and neither its day
/// nor its hours are left free.
pub open spec fn slot_holds(
    tm: DesiredView,
    dates: DateRejector,
    hours: DateTimeRejector,
    m: MeetingView,
) -> bool {
    match (
        zone_local(tm.timezone, tm.min_date),
        zone_local(tm.timezone, tm.max_date),
        zone_local(tm.timezone, m.start),
        zone_local(tm.timezone, m.end),
    ) {
        (Some(lmin), Some(lmax), Some(ls), Some(le)) => {
            &&& m.end - m.start == tm.duration
            &&& lmin <= ls
            &&& le <= lmax
            &&& day_of(ls) == day_of(le)
            &&& time_of(lmin) <= time_of(ls)
            &&& time_of(le) <= time_of(lmax)
            &&& !dates.spec_reject(day_of(ls))
            &&& !hours.spec_reject(ls, le)
        },
        _ => false,
    }
}

/// `slot_holds` of every slot of a list.
pub open spec fn all_slots_hold(
    tm: DesiredView,
    dates: DateRejector,
    hours: DateTimeRejector,
    slots: Seq<MeetingView>,
) -> bool {
    forall|i: int| 0 <= i < slots.len() ==> slot_holds(tm, dates, hours, #[trigger] slots[i])
}

/// The identifier of the day with the given number.
fn make_day_id(slug: &str, day_index: u64) -> (r: String)
    ensures
        r@ == day_id(slug@, day_index as nat),
{
    let mut out = slug.to_owned();
    push_char(&mut out, '_');
    push_decimal(&mut out, day_index);
    assert(out@ =~= day_id(slug@, day_index as nat));
    out
}

/// The slots of a desired meeting, in order of time: for each day of the
/// window that is not left free, the slots between the window's times of day.
/// Fails where the window's bounds have no wall-clock time in the zone, or a
/// day has no single first instant.
pub fn generate_all_possible_meetings(
    tm: &DesiredMeeting,
    reject_date_fn: &DateRejector,
    reject_datetime_fn: &DateTimeRejector,
) -> (r: Result<Vec<Meeting>, SlotError>)
    ensures
        match r {
            Ok(l) => {
                &&& spec_slots(tm@, *reject_date_fn, *reject_datetime_fn) == Some(
                    meeting_views(l@),
                )
                &&& all_slots_hold(tm@, *reject_date_fn, *reject_datetime_fn, meeting_views(l@))
                &&& ids_ok(meeting_views(l@), tm.slug@)
            },
            Err(e) => spec_slot_error(tm@, *reject_date_fn, *reject_datetime_fn) == Some(e),
        },
        r is Ok <==> spec_slot_error(tm@, *reject_date_fn, *reject_datetime_fn) is None,
{
    let zone = tm.timezone.as_str();
    let lmin = match local_of_instant(zone, tm.min_date) {
        Some(l) => l,
        None => {
            return Err(SlotError::NoLocalTime);
        },
    };
    let lmax = match local_of_instant(zone, tm.max_date) {
        Some(l) => l,
        None => {
            return Err(SlotError::NoLocalTime);
        },
    };
    let first_day = local_day(lmin);
    let last_day = local_day(lmax);
    let min_time = local_time(lmin);
    let max_time = local_time(lmax);
    let mut res: Vec<Meeting> = Vec::new();
    let mut day: i64 = first_day;
    let mut day_index: u64 = 0;
    let ghost whole = spec_slots(tm@, *reject_date_fn, *reject_datetime_fn);
    if day > last_day {
        assert(meeting_views(res@) =~= Seq::<MeetingView>::empty());
        return Ok(res);
    }
    loop
        invariant
            first_day <= day <= last_day,
            day_index <= day - first_day,
            zone@ == tm@.timezone,
            zone_local(tm@.timezone, tm@.min_date) == Some(lmin as int),
            zone_local(tm@.timezone, tm@.max_date) == Some(lmax as int),
            first_day == day_of(lmin as int),
            last_day == day_of(lmax as int),
            min_time == time_of(lmin as int),
            max_time == time_of(lmax as int),
            whole == spec_slots(tm@, *reject_date_fn, *reject_datetime_fn),
            whole == match slots_from(
                tm@,
                *reject_date_fn,
                *reject_datetime_fn,
                last_day as int,
                min_time as int,
                max_time as int,
                day as int,
                day_index as nat,
            ) {
                Some(rest) => Some(meeting_views(res@) + rest),
                None => None,
            },
            all_slots_hold(tm@, *reject_date_fn, *reject_datetime_fn, meeting_views(res@)),
            ids_ok(meeting_views(res@), tm.slug@),
            forall|p: int|
                0 <= p < res.len() ==> made_before(
                    tm.slug@,
                    day_index as nat,
                    (#[trigger] meeting_views(res@)[p]).id,
                ),
        decreases last_day - day,
    {
        if !reject_date_fn.reject(day) {
            let id = make_day_id(tm.slug.as_str(), day_index);
            let mut today = match generate_meetings_for_date(
                zone,
                day,
                min_time,
                max_time,
                tm.step,
                tm.duration,
                id.as_str(),
                reject_datetime_fn,
            ) {
                Ok(l) => l,
                Err(e) => {
                    return Err(e);
                },
            };
            let ghost before = meeting_views(res@);
            let ghost added = meeting_views(today@);
            proof {
                assert forall|i: int| 0 <= i < added.len() implies slot_holds(
                    tm@,
                    *reject_date_fn,
                    *reject_datetime_fn,
                    #[trigger] added[i],
                ) by {
                    assert(slot_ok(
                        zone@,
                        *reject_datetime_fn,
                        day as int,
                        min_time as int,
                        max_time as int,
                        tm.duration as int,
                        added[i],
                    ));
                }
            }
            res.append(&mut today);
            proof {
                let after = meeting_views(res@);
                assert(after =~= before + added);
                let slug = tm.slug@;
                let d = day_index as nat;
                assert forall|p: int| 0 <= p < after.len() implies made_before(
                    slug,
                    d + 1,
                    (#[trigger] after[p]).id,
                ) by {
                    if p < before.len() {
                        assert(after[p] == before[p]);
                        assert(made_before(slug, d, before[p].id));
                        let (d0, k0) = choose|d0: nat, k0: nat|
                            d0 < d && before[p].id == #[trigger] full_id(slug, d0, k0);
                        assert(d0 < d + 1 && after[p].id == full_id(slug, d0, k0));
                    } else {
                        let j = p - before.len();
                        assert(after[p] == added[j]);
                        assert(added[j].id == full_id(slug, d, j as nat));
                    }
                }
                assert forall|p: int| 0 <= p < after.len() implies is_id_of(
                    slug,
                    (#[trigger] after[p]).id,
                ) by {
                    assert(made_before(slug, d + 1, after[p].id));
                    let (d0, k0) = choose|d0: nat, k0: nat|
                        d0 < d + 1 && after[p].id == #[trigger] full_id(slug, d0, k0);
                    assert(after[p].id == full_id(slug, d0, k0));
                }
                assert forall|p: int, q: int| 0 <= p < q < after.len() implies (#[trigger] after[p]).id
                    != (#[trigger] after[q]).id by {
                    if q < before.len() {
                        assert(after[p] == before[p] && after[q] == before[q]);
                    } else {
                        let j = q - before.len();
                        assert(after[q] == added[j]);
                        assert(added[j].id == full_id(slug, d, j as nat));
                        if p < before.len() {
                            assert(after[p] == before[p]);
                            assert(made_before(slug, d, before[p].id));
                            let (d0, k0) = choose|d0: nat, k0: nat|
                                d0 < d && before[p].id == #[trigger] full_id(slug, d0, k0);
                            if after[p].id == after[q].id {
                                lemma_full_id_injective(slug, d0, k0, slug, d, j as nat);
                            }
                        } else {
                            let i = p - before.len();
                            assert(after[p] == added[i]);
                            assert(added[i].id == full_id(slug, d, i as nat));
                            if after[p].id == after[q].id {
                                lemma_full_id_injective(slug, d, i as nat, slug, d, j as nat);
                            }
                        }
                    }
                }
            }
            day_index += 1;
        }
        if day == last_day {
            proof {
                let rest = slots_from(
                    tm@,
                    *reject_date_fn,
                    *reject_datetime_fn,
                    last_day as int,
                    min_time as int,
                    max_time as int,
                    day + 1,
                    day_index as nat,
                );
                assert(rest == Some(Seq::<MeetingView>::empty()));
                assert(meeting_views(res@) + Seq::<MeetingView>::empty() =~= meeting_views(res@));
            }
            return Ok(res);
        }
        day += 1;
    }
}

} // verus!
