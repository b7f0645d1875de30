//! The candidate builder: whether a slot suits the attendees, which room is
//! free for it, and how well it clusters with what is already booked.

use crate::text::views;
use crate::tree::{busy, count_overlaps, MeetingsTree};
use crate::types::{
    Availability, CandidateView, DesiredMeeting, DesiredView, Meeting, MeetingCandidate,
    MeetingView, RoomPicker,
};
use vstd::prelude::*;

verus! {

/// Whether every name of the list has a calendar in the store.
pub open spec fn all_known(avail: Availability, who: Seq<Seq<char>>) -> bool {
    forall|i: int| 0 <= i < who.len() ==> avail.has(#[trigger] who[i])
}

/// Whether an identity has nothing booked that overlaps `[start, end)`.
pub open spec fn is_free(avail: Availability, who: Seq<char>, start: int, end: int) -> bool {
    busy(avail.value(who), start, end) == 0
}

/// Whether every identity of the list is free over `[start, end)`.
pub open spec fn all_free(avail: Availability, who: Seq<Seq<char>>, start: int, end: int) -> bool {
    forall|i: int| 0 <= i < who.len() ==> is_free(avail, #[trigger] who[i], start, end)
}

/// The first room of the pool that is free over `[start, end)`.
pub open spec fn first_free(
    avail: Availability,
    pool: Seq<Seq<char>>,
    start: int,
    end: int,
) -> Option<Seq<char>>
    decreases pool.len(),
{
    if pool.len() == 0 {
        None
    } else if is_free(avail, pool[0], start, end) {
        Some(pool[0])
    } else {
        first_free(avail, pool.drop_first(), start, end)
    }
}

/// The room of a slot: none where no room is needed, else the first free room
/// of the pool. The outer `None` says that a room is needed and none is free.
pub open spec fn room_for(
    avail: Availability,
    pool: Option<Seq<Seq<char>>>,
    start: int,
    end: int,
) -> Option<Option<Seq<char>>> {
    match pool {
        None => Some(None),
        Some(rooms) => match first_free(avail, rooms, start, end) {
            Some(room) => Some(Some(room)),
            None => None,
        },
    }
}

/// The lower end of an interval widened by `pad` seconds, kept in range.
pub open spec fn widen_lo(start: int, pad: int) -> int {
    if start - pad < i64::MIN {
        i64::MIN as int
    } else {
        start - pad
    }
}

/// The upper end of an interval widened by `pad` seconds, kept in range.
pub open spec fn widen_hi(end: int, pad: int) -> int {
    if end + pad > i64::MAX {
        i64::MAX as int
    } else {
        end + pad
    }
}

/// The number of booked meetings of a calendar that overlap the interval
/// widened by `pad` seconds on both sides.
pub open spec fn near(t: MeetingsTree, start: int, end: int, pad: int) -> nat {
    busy(t, widen_lo(start, pad), widen_hi(end, pad))
}

/// What one calendar adds to the score of a slot: 20 for each meeting within
/// two hours, 100 within one hour, 300 within half an hour, 600 within a
/// quarter. A meeting that is near counts in each wider window too.
pub open spec fn attendee_score(t: MeetingsTree, start: int, end: int) -> nat {
    20 * near(t, start, end, 7200) + 100 * near(t, start, end, 3600) + 300 * near(
        t,
        start,
        end,
        1800,
    ) + 600 * near(t, start, end, 900)
}

/// The score of a slot: 1, and what each attendee's calendar adds.
pub open spec fn total_score(
    avail: Availability,
    who: Seq<Seq<char>>,
    start: int,
    end: int,
) -> nat
    decreases who.len(),
{
    if who.len() == 0 {
        1
    } else {
        total_score(avail, who.drop_last(), start, end) + attendee_score(
            avail.value(who.last()),
            start,
            end,
        )
    }
}

/// A score as it is stored: itself, or the largest that fits.
pub open spec fn capped(n: nat) -> u64 {
    if n <= u64::MAX {
        n as u64
    } else {
        u64::MAX
    }
}

/// The number of meetings of a calendar near the interval.
fn count_near(t: &MeetingsTree, start: i64, end: i64, pad: i64) -> (n: usize)
    requires
        start <= end,
        pad >= 0,
    ensures
        n == near(*t, start as int, end as int, pad as int),
{
    let lo: i64 = if start < i64::MIN + pad {
        i64::MIN
    } else {
        start - pad
    };
    let hi: i64 = if end > i64::MAX - pad {
        i64::MAX
    } else {
        end + pad
    };
    count_overlaps(t, lo, hi)
}

/// The score of the slot `[start, end)` for its attendees: higher where the
/// slot lies close to what they have booked, so that calendars stay in one
/// piece.
pub fn compute_score(start: i64, end: i64, attendees: &Vec<String>, availability: &Availability) -> (score:
    u64)
    requires
        start <= end,
        availability.wf(),
        all_known(*availability, views(attendees@)),
    ensures
        score == capped(total_score(*availability, views(attendees@), start as int, end as int)),
{
    let mut score: u64 = 1;
    let mut i: usize = 0;
    let ghost who = views(attendees@);
    while i < attendees.len()
        invariant
            i <= attendees.len(),
            start <= end,
            availability.wf(),
            who == views(attendees@),
            all_known(*availability, who),
            score == capped(total_score(*availability, who.take(i as int), start as int, end as int)),
        decreases attendees.len() - i,
    {
        assert(availability.has(who[i as int]));
        let t = match availability.get(attendees[i].as_str()) {
            Some(t) => t,
            None => {
                return score;
            },
        };
        let a = count_near(t, start, end, 7200) as u128;
        let b = count_near(t, start, end, 3600) as u128;
        let c = count_near(t, start, end, 1800) as u128;
        let d = count_near(t, start, end, 900) as u128;
        let sum: u128 = score as u128 + 20 * a + 100 * b + 300 * c + 600 * d;
        proof {
            let next = who.take(i + 1);
            assert(next.drop_last() =~= who.take(i as int));
            assert(next.last() == who[i as int]);
        }
        score = if sum > u64::MAX as u128 {
            u64::MAX
        } else {
            sum as u64
        };
        i += 1;
    }
    assert(who.take(attendees.len() as int) =~= who);
    score
}

/// Whether every identity of the list is free over `[start, end)`.
pub fn check_all_free(availability: &Availability, who: &Vec<String>, start: i64, end: i64) -> (r:
    bool)
    requires
        start <= end,
        availability.wf(),
        all_known(*availability, views(who@)),
    ensures
        r == all_free(*availability, views(who@), start as int, end as int),
{
    let mut i: usize = 0;
    while i < who.len()
        invariant
            i <= who.len(),
            start <= end,
            availability.wf(),
            all_known(*availability, views(who@)),
            forall|j: int|
                0 <= j < i ==> is_free(
                    *availability,
                    #[trigger] views(who@)[j],
                    start as int,
                    end as int,
                ),
        decreases who.len() - i,
    {
        assert(availability.has(views(who@)[i as int]));
        let busy_here = match availability.get(who[i].as_str()) {
            Some(t) => count_overlaps(t, start, end),
            None => 1,
        };
        if busy_here != 0 {
            assert(!is_free(*availability, views(who@)[i as int], start as int, end as int));
            return false;
        }
        i += 1;
    }
    true
}

/// The first room of the pool that is free over `[start, end)`.
pub fn find_free_room(availability: &Availability, pool: &Vec<String>, start: i64, end: i64) -> (r:
    Option<String>)
    requires
        start <= end,
        availability.wf(),
        all_known(*availability, views(pool@)),
    ensures
        crate::types::opt_view(r) == first_free(
            *availability,
            views(pool@),
            start as int,
            end as int,
        ),
{
    let mut i: usize = 0;
    let ghost rooms = views(pool@);
    assert(rooms.skip(0) =~= rooms);
    while i < pool.len()
        invariant
            i <= pool.len(),
            start <= end,
            availability.wf(),
            rooms == views(pool@),
            all_known(*availability, rooms),
            first_free(*availability, rooms, start as int, end as int) == first_free(
                *availability,
                rooms.skip(i as int),
                start as int,
                end as int,
            ),
        decreases pool.len() - i,
    {
        assert(availability.has(rooms[i as int]));
        assert(rooms.skip(i as int)[0] == rooms[i as int]);
        assert(rooms.skip(i as int).drop_first() =~= rooms.skip(i + 1));
        let busy_here = match availability.get(pool[i].as_str()) {
            Some(t) => count_overlaps(t, start, end),
            None => 1,
        };
        if busy_here == 0 {
            return Some(pool[i].clone());
        }
        i += 1;
    }
    None
}

/// The candidate for a slot, as plain values: none where an attendee is busy,
/// or where a room is needed and none of the pool is free.
pub open spec fn spec_candidate(
    tm: DesiredView,
    avail: Availability,
    id: Seq<char>,
    picker: RoomPicker,
    slot: MeetingView,
) -> Option<CandidateView> {
    if !all_free(avail, tm.attendees, slot.start, slot.end) {
        None
    } else {
        match room_for(avail, picker.spec_pick(tm.attendees.len() as int), slot.start, slot.end) {
            None => None,
            Some(room) => Some(
                CandidateView {
                    title: tm.title,
                    id,
                    start: slot.start,
                    end: slot.end,
                    room,
                    score: capped(total_score(avail, tm.attendees, slot.start, slot.end)) as nat,
                },
            ),
        }
    }
}

/// Whether the store holds a calendar for everyone whom a slot of the
/// meeting concerns: its attendees and the rooms of its pool.
pub open spec fn covers(avail: Availability, tm: DesiredView, picker: RoomPicker) -> bool {
    &&& all_known(avail, tm.attendees)
    &&& match picker.spec_pick(tm.attendees.len() as int) {
        Some(pool) => all_known(avail, pool),
        None => true,
    }
}

/// Whether every name of the list has a calendar in the store.
pub fn knows_all(avail: &Availability, who: &Vec<String>) -> (r: bool)
    requires
        avail.wf(),
    ensures
        r == all_known(*avail, views(who@)),
{
    let mut i: usize = 0;
    while i < who.len()
        invariant
            i <= who.len(),
            avail.wf(),
            forall|j: int| 0 <= j < i ==> avail.has(#[trigger] views(who@)[j]),
        decreases who.len() - i,
    {
        if !avail.contains_key(who[i].as_str()) {
            assert(!avail.has(views(who@)[i as int]));
            return false;
        }
        i += 1;
    }
    true
}

/// Whether the store holds a calendar for everyone whom a slot of the
/// meeting concerns.
pub fn is_covered(avail: &Availability, tm: &DesiredMeeting, picker: &RoomPicker) -> (r: bool)
    requires
        avail.wf(),
    ensures
        r == covers(*avail, tm@, *picker),
{
    if !knows_all(avail, &tm.attendees) {
        return false;
    }
    match picker.pick(tm.attendees.len()) {
        Some(pool) => knows_all(avail, &pool),
        None => true,
    }
}

/// The candidate for a slot of a desired meeting: the slot with the first
/// free room of the meeting's pool and its score; none where an attendee is
/// busy during the slot, or where a room is needed and none is free.
pub fn generate_meeting_candidate(
    tm: &DesiredMeeting,
    avail: &Availability,
    ident: String,
    room_picker: &RoomPicker,
    i: &Meeting,
) -> (r: Option<MeetingCandidate>)
    requires
        i.start <= i.end,
        avail.wf(),
        covers(*avail, tm@, *room_picker),
    ensures
        crate::solver::opt_candidate_view(r) == spec_candidate(
            tm@,
            *avail,
            ident@,
            *room_picker,
            i@,
        ),
{
    if !check_all_free(avail, &tm.attendees, i.start, i.end) {
        return None;
    }
    let room: Option<String> = match room_picker.pick(tm.attendees.len()) {
        None => None,
        Some(pool) => {
            match find_free_room(avail, &pool, i.start, i.end) {
                Some(room) => Some(room),
                None => {
                    return None;
                },
            }
        },
    };
    Some(
        MeetingCandidate {
            title: tm.title.clone(),
            id: ident,
            start: i.start,
            end: i.end,
            room,
            score: compute_score(i.start, i.end, &tm.attendees, avail),
        },
    )
}

} // verus!
