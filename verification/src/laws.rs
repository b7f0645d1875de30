//! What holds of every problem that is built from desired meetings, and of
//! every choice of candidates that meets the problem's constraints.

use crate::candidate::{all_free, first_free, is_free, spec_candidate};
use crate::conflict::{is_conflict, pair_views, share_time, str_lt};
use crate::gen::slot_holds;
use crate::lp::lp_text;
use crate::solver::{is_slot_of, lists, sound, stems_from, SolverInput};
use crate::strmap::StrMap;
use crate::text::{lemma_str_le_total, str_le};
use crate::time::{day_of, zone_local};
use crate::tree::busy;
use crate::types::{Availability, CandidateView, DesiredView, MeetingCandidate, MeetingView, Options};
use vstd::prelude::*;

verus! {

/// The first free room of a pool is a room of the pool, and free.
pub proof fn lemma_first_free(avail: Availability, pool: Seq<Seq<char>>, start: int, end: int)
    ensures
        first_free(avail, pool, start, end) matches Some(room) ==> pool.contains(room) && is_free(
            avail,
            room,
            start,
            end,
        ),
    decreases pool.len(),
{
    if pool.len() > 0 {
        if is_free(avail, pool[0], start, end) {
            assert(pool[0] == pool[0]);
        } else {
            lemma_first_free(avail, pool.drop_first(), start, end);
            match first_free(avail, pool.drop_first(), start, end) {
                Some(room) => {
                    let i = choose|i: int|
                        0 <= i < pool.drop_first().len() && pool.drop_first()[i] == room;
                    assert(pool[i + 1] == room);
                },
                None => {},
            }
        }
    }
}

/// No attendee of a candidate's meeting has anything booked during the
/// candidate.
pub proof fn law_attendees_are_free(
    c: CandidateView,
    key: Seq<char>,
    m: DesiredView,
    avail: Availability,
    opts: Options,
    attendee: int,
)
    requires
        stems_from(c, key, m, avail, opts),
        0 <= attendee < m.attendees.len(),
    ensures
        busy(avail.value(m.attendees[attendee]), c.start, c.end) == 0,
{
    let slot = choose|slot: MeetingView|
        #![trigger is_slot_of(slot, m, opts)]
        is_slot_of(slot, m, opts) && slot.id == key && spec_candidate(
            m,
            avail,
            key,
            opts.room_picker_fn,
            slot,
        ) == Some(c);
    assert(all_free(avail, m.attendees, slot.start, slot.end));
    assert(is_free(avail, m.attendees[attendee], slot.start, slot.end));
}

/// The room of a candidate has nothing booked during the candidate.
pub proof fn law_room_is_free(
    c: CandidateView,
    key: Seq<char>,
    m: DesiredView,
    avail: Availability,
    opts: Options,
)
    requires
        stems_from(c, key, m, avail, opts),
    ensures
        c.room matches Some(room) ==> busy(avail.value(room), c.start, c.end) == 0,
{
    let slot = choose|slot: MeetingView|
        #![trigger is_slot_of(slot, m, opts)]
        is_slot_of(slot, m, opts) && slot.id == key && spec_candidate(
            m,
            avail,
            key,
            opts.room_picker_fn,
            slot,
        ) == Some(c);
    match opts.room_picker_fn.spec_pick(m.attendees.len() as int) {
        Some(pool) => {
            lemma_first_free(avail, pool, slot.start, slot.end);
        },
        None => {},
    }
}

/// A candidate lasts as long as its meeting.
pub proof fn law_candidate_lasts_as_long_as_meeting(
    c: CandidateView,
    key: Seq<char>,
    m: DesiredView,
    avail: Availability,
    opts: Options,
)
    requires
        stems_from(c, key, m, avail, opts),
    ensures
        c.end - c.start == m.duration,
        c.title == m.title,
        c.id == key,
{
    let slot = choose|slot: MeetingView|
        #![trigger is_slot_of(slot, m, opts)]
        is_slot_of(slot, m, opts) && slot.id == key && spec_candidate(
            m,
            avail,
            key,
            opts.room_picker_fn,
            slot,
        ) == Some(c);
    assert(slot_holds(m, opts.reject_date_fn, opts.reject_datetime_fn, slot));
}

/// On the wall clock of its meeting's zone, a candidate starts no earlier
/// than the meeting's window and ends no later.
pub proof fn law_candidate_lies_in_window(
    c: CandidateView,
    key: Seq<char>,
    m: DesiredView,
    avail: Availability,
    opts: Options,
)
    requires
        stems_from(c, key, m, avail, opts),
    ensures
        zone_local(m.timezone, c.start) is Some,
        zone_local(m.timezone, c.end) is Some,
        zone_local(m.timezone, m.min_date) is Some,
        zone_local(m.timezone, m.max_date) is Some,
        zone_local(m.timezone, c.start)->0 >= zone_local(m.timezone, m.min_date)->0,
        zone_local(m.timezone, c.end)->0 <= zone_local(m.timezone, m.max_date)->0,
{
    let slot = choose|slot: MeetingView|
        #![trigger is_slot_of(slot, m, opts)]
        is_slot_of(slot, m, opts) && slot.id == key && spec_candidate(
            m,
            avail,
            key,
            opts.room_picker_fn,
            slot,
        ) == Some(c);
    assert(slot_holds(m, opts.reject_date_fn, opts.reject_datetime_fn, slot));
}

/// No candidate lies on a day that is left free, nor over hours that are
/// left free.
pub proof fn law_candidate_avoids_what_is_left_free(
    c: CandidateView,
    key: Seq<char>,
    m: DesiredView,
    avail: Availability,
    opts: Options,
)
    requires
        stems_from(c, key, m, avail, opts),
    ensures
        zone_local(m.timezone, c.start) is Some,
        zone_local(m.timezone, c.end) is Some,
        !opts.reject_date_fn.spec_reject(day_of(zone_local(m.timezone, c.start)->0)),
        !opts.reject_date_fn.spec_reject(day_of(zone_local(m.timezone, c.end)->0)),
        !opts.reject_datetime_fn.spec_reject(
            zone_local(m.timezone, c.start)->0,
            zone_local(m.timezone, c.end)->0,
        ),
{
    let slot = choose|slot: MeetingView|
        #![trigger is_slot_of(slot, m, opts)]
        is_slot_of(slot, m, opts) && slot.id == key && spec_candidate(
            m,
            avail,
            key,
            opts.room_picker_fn,
            slot,
        ) == Some(c);
    assert(slot_holds(m, opts.reject_date_fn, opts.reject_datetime_fn, slot));
}

/// Every candidate of a problem that was built from desired meetings stems
/// from one of them.
pub proof fn law_every_candidate_has_its_meeting(
    cands: StrMap<MeetingCandidate>,
    ms: Seq<DesiredView>,
    avail: Availability,
    opts: Options,
    key: Seq<char>,
) -> (j: int)
    requires
        sound(cands, ms, avail, opts),
        cands.has(key),
    ensures
        0 <= j < ms.len(),
        stems_from(cands.value(key)@, key, ms[j], avail, opts),
{
    choose|j: int|
        0 <= j < ms.len() && stems_from(cands.value(key)@, key, #[trigger] ms[j], avail, opts)
}

/// The two candidates of a conflict share time, and a conflict is written
/// once only, with the smaller key first.
pub proof fn law_conflicts_share_time(s: SolverInput, a: Seq<char>, b: Seq<char>)
    requires
        s.consistent(),
        pair_views(s.intersections@).contains((a, b)),
    ensures
        s.candidates.has(a),
        s.candidates.has(b),
        share_time(s.candidates.value(a)@, s.candidates.value(b)@),
        str_lt(a, b),
        !pair_views(s.intersections@).contains((b, a)),
{
    assert(is_conflict(s.candidates, a, b));
    if pair_views(s.intersections@).contains((b, a)) {
        assert(is_conflict(s.candidates, b, a));
        crate::text::lemma_str_le_antisym(a, b);
    }
}

/// Two candidates that share time are a conflict, whichever comes first.
pub proof fn law_shared_time_is_a_conflict(s: SolverInput, a: Seq<char>, b: Seq<char>)
    requires
        s.consistent(),
        s.candidates.has(a),
        s.candidates.has(b),
        a != b,
        share_time(s.candidates.value(a)@, s.candidates.value(b)@),
    ensures
        pair_views(s.intersections@).contains((a, b)) || pair_views(s.intersections@).contains(
            (b, a),
        ),
{
    lemma_str_le_total(a, b);
    if str_le(a, b) {
        assert(is_conflict(s.candidates, a, b));
    } else {
        assert(is_conflict(s.candidates, b, a));
    }
}

/// The same problem gives the same text.
pub proof fn law_encoding_is_deterministic(a: SolverInput, b: SolverInput)
    requires
        a == b,
    ensures
        lp_text(a) == lp_text(b),
{
}

/// Whether a choice of candidates meets the constraints of a problem: only
/// candidates are chosen, of those listed under a title exactly one, and of
/// the two of a conflict at most one.
pub open spec fn feasible(s: SolverInput, chosen: Set<Seq<char>>) -> bool {
    &&& forall|k: Seq<char>| #[trigger] chosen.contains(k) ==> s.candidates.has(k)
    &&& forall|t: Seq<char>| #[trigger]
        s.candidate_per_desired_meeting.has(t) ==> exists|k: Seq<char>|
            #![trigger chosen.contains(k)]
            chosen.contains(k) && lists(s.candidate_per_desired_meeting, t, k)
    &&& forall|t: Seq<char>, x: Seq<char>, y: Seq<char>|
        #![trigger lists(s.candidate_per_desired_meeting, t, x), lists(s.candidate_per_desired_meeting, t, y)]
        lists(s.candidate_per_desired_meeting, t, x) && lists(
            s.candidate_per_desired_meeting,
            t,
            y,
        ) && chosen.contains(x) && chosen.contains(y) ==> x == y
    &&& forall|a: Seq<char>, b: Seq<char>|
        #![trigger pair_views(s.intersections@).contains((a, b))]
        pair_views(s.intersections@).contains((a, b)) ==> !(chosen.contains(a)
            && chosen.contains(b))
}

/// In a choice that meets the constraints, no two candidates share time.
pub proof fn law_chosen_candidates_are_disjoint(
    s: SolverInput,
    chosen: Set<Seq<char>>,
    a: Seq<char>,
    b: Seq<char>,
)
    requires
        s.consistent(),
        feasible(s, chosen),
        chosen.contains(a),
        chosen.contains(b),
        a != b,
    ensures
        !share_time(s.candidates.value(a)@, s.candidates.value(b)@),
{
    if share_time(s.candidates.value(a)@, s.candidates.value(b)@) {
        law_shared_time_is_a_conflict(s, a, b);
    }
}

/// In a choice that meets the constraints, each title that has candidates
/// has exactly one chosen candidate, and no two chosen candidates have the
/// same title.
pub proof fn law_one_candidate_for_each_meeting(
    s: SolverInput,
    chosen: Set<Seq<char>>,
    a: Seq<char>,
    b: Seq<char>,
)
    requires
        s.consistent(),
        feasible(s, chosen),
        chosen.contains(a),
        chosen.contains(b),
        s.candidates.value(a).title@ == s.candidates.value(b).title@,
    ensures
        a == b,
        s.candidate_per_desired_meeting.has(s.candidates.value(a).title@),
{
    let per = s.candidate_per_desired_meeting;
    assert(s.candidates.has(a) && s.candidates.has(b));
    assert(lists(per, s.candidates.value(a).title@, a));
    assert(lists(per, s.candidates.value(b).title@, b));
}

} // verus!
