//! The optimisation problem of a run: its candidates, which of them belong to
//! which desired meeting, and which of them cannot both be chosen.

use crate::candidate::{covers, generate_meeting_candidate, spec_candidate};
use crate::conflict::{build_intersections_pairs, intervals_ok, is_conflict, pair_views};
use crate::gen::{
    all_slots_hold, generate_all_possible_meetings, ids_ok, is_id_of, lemma_full_id_injective,
    slot_holds, spec_slot_error, spec_slots, SlotError,
};
use crate::input::{has_distinct_slugs, slugs_distinct};
use crate::strmap::{str_same, StrMap};
use crate::text::views;
use crate::types::{
    copy_strings, desired_views, meeting_views, Availability, CandidateView, DesiredMeeting,
    DesiredView, MeetingCandidate, MeetingView, Options, RoomPicker,
};
use vstd::prelude::*;

verus! {

/// An optional candidate as plain values.
pub open spec fn opt_candidate_view(c: Option<MeetingCandidate>) -> Option<CandidateView> {
    match c {
        Some(x) => Some(x@),
        None => None,
    }
}

/// Whether a slot of the meeting concerns the identity: an attendee, or a
/// room of the meeting's pool.
pub open spec fn concerns(m: DesiredView, picker: RoomPicker, who: Seq<char>) -> bool {
    m.attendees.contains(who) || match picker.spec_pick(m.attendees.len() as int) {
        Some(pool) => pool.contains(who),
        None => false,
    }
}

/// Whether some meeting of the list concerns the identity.
pub open spec fn is_identity(ms: Seq<DesiredView>, picker: RoomPicker, who: Seq<char>) -> bool {
    exists|i: int| 0 <= i < ms.len() && concerns(#[trigger] ms[i], picker, who)
}

/// Whether the name is in the list.
fn has_name(out: &Vec<String>, name: &str) -> (r: bool)
    ensures
        r == views(out@).contains(name@),
{
    let mut i: usize = 0;
    while i < out.len()
        invariant
            i <= out.len(),
            forall|j: int| 0 <= j < i ==> views(out@)[j] != name@,
        decreases out.len() - i,
    {
        if str_same(out[i].as_str(), name) {
            assert(views(out@)[i as int] == name@);
            return true;
        }
        i += 1;
    }
    false
}

/// Adds to `out` the names that it does not hold yet.
fn add_names(out: &mut Vec<String>, names: &Vec<String>)
    requires
        views(old(out)@).no_duplicates(),
    ensures
        views(final(out)@).no_duplicates(),
        forall|x: Seq<char>|
            #![trigger views(final(out)@).contains(x)]
            views(final(out)@).contains(x) <==> views(old(out)@).contains(x) || views(
                names@,
            ).contains(x),
{
    let mut i: usize = 0;
    while i < names.len()
        invariant
            i <= names.len(),
            views(out@).no_duplicates(),
            forall|x: Seq<char>|
                #![trigger views(out@).contains(x)]
                views(out@).contains(x) <==> views(old(out)@).contains(x) || views(names@).take(
                    i as int,
                ).contains(x),
        decreases names.len() - i,
    {
        let ghost before = views(out@);
        let ghost name = names[i as int]@;
        let fresh = !has_name(out, names[i].as_str());
        if fresh {
            out.push(names[i].clone());
        }
        proof {
            let after = views(out@);
            let seen = views(names@).take(i as int);
            let next = views(names@).take(i + 1);
            assert(next =~= seen.push(name));
            if fresh {
                assert(after =~= before.push(name));
            }
            assert forall|x: Seq<char>|
                #![trigger after.contains(x)]
                after.contains(x) <==> views(old(out)@).contains(x) || next.contains(x) by {
                if after.contains(x) {
                    let p = choose|p: int| 0 <= p < after.len() && after[p] == x;
                    if p < before.len() {
                        assert(before[p] == x);
                        assert(before.contains(x));
                        if seen.contains(x) {
                            let q = choose|q: int| 0 <= q < seen.len() && seen[q] == x;
                            assert(next[q] == x);
                        }
                    } else {
                        assert(next[i as int] == x);
                    }
                }
                if views(old(out)@).contains(x) {
                    assert(before.contains(x));
                    let p = choose|p: int| 0 <= p < before.len() && before[p] == x;
                    assert(after[p] == x);
                }
                if next.contains(x) {
                    let q = choose|q: int| 0 <= q < next.len() && next[q] == x;
                    if q < i {
                        assert(seen[q] == x);
                        assert(seen.contains(x));
                        assert(before.contains(x));
                        let p = choose|p: int| 0 <= p < before.len() && before[p] == x;
                        assert(after[p] == x);
                    } else {
                        assert(x == name);
                        if fresh {
                            assert(after[after.len() - 1] == x);
                        } else {
                            let p = choose|p: int| 0 <= p < before.len() && before[p] == x;
                            assert(after[p] == x);
                        }
                    }
                }
            }
            assert forall|p: int, q: int|
                0 <= p < after.len() && 0 <= q < after.len() && p != q implies after[p]
                != after[q] by {
                if p < before.len() && q < before.len() {
                    assert(before[p] != before[q]);
                } else if p < before.len() {
                    assert(before.contains(before[p]));
                } else {
                    assert(before.contains(before[q]));
                }
            }
        }
        i += 1;
    }
    assert(views(names@).take(names.len() as int) =~= views(names@));
}

/// The identities whose calendars a run needs: every attendee of a desired
/// meeting and every room of a meeting's pool, each once.
pub fn extract_attendees(i: &Vec<DesiredMeeting>, c: &RoomPicker) -> (r: Vec<String>)
    ensures
        views(r@).no_duplicates(),
        forall|who: Seq<char>|
            #![trigger views(r@).contains(who)]
            views(r@).contains(who) <==> is_identity(desired_views(i@), *c, who),
{
    let mut out: Vec<String> = Vec::new();
    let mut j: usize = 0;
    let ghost ms = desired_views(i@);
    while j < i.len()
        invariant
            j <= i.len(),
            ms == desired_views(i@),
            views(out@).no_duplicates(),
            forall|who: Seq<char>|
                #![trigger views(out@).contains(who)]
                views(out@).contains(who) <==> is_identity(ms.take(j as int), *c, who),
        decreases i.len() - j,
    {
        let ghost before = views(out@);
        let pool = c.pick(i[j].attendees.len());
        let ghost m = i[j as int]@;
        assert(m.attendees.len() == i[j as int].attendees.len());
        match &pool {
            Some(rooms) => {
                add_names(&mut out, rooms);
            },
            None => {},
        }
        let ghost mid = views(out@);
        assert(forall|who: Seq<char>|
            #![trigger mid.contains(who)]
            mid.contains(who) <==> before.contains(who) || match c.spec_pick(
                m.attendees.len() as int,
            ) {
                Some(p) => p.contains(who),
                None => false,
            });
        add_names(&mut out, &i[j].attendees);
        proof {
            let done = ms.take(j as int);
            let next = ms.take(j + 1);
            assert(next =~= done.push(ms[j as int]));
            assert(ms[j as int] == m);
            assert forall|who: Seq<char>|
                #![trigger views(out@).contains(who)]
                views(out@).contains(who) <==> is_identity(next, *c, who) by {
                assert(views(out@).contains(who) <==> mid.contains(who) || m.attendees.contains(
                    who,
                ));
                assert(before.contains(who) <==> is_identity(done, *c, who));
                if is_identity(next, *c, who) {
                    let q = choose|q: int| 0 <= q < next.len() && concerns(next[q], *c, who);
                    if q < j {
                        assert(concerns(done[q], *c, who));
                        assert(is_identity(done, *c, who));
                    }
                }
                if is_identity(done, *c, who) {
                    let q = choose|q: int| 0 <= q < done.len() && concerns(done[q], *c, who);
                    assert(concerns(next[q], *c, who));
                }
                if concerns(ms[j as int], *c, who) {
                    assert(concerns(next[j as int], *c, who));
                }
            }
        }
        j += 1;
    }
    assert(ms.take(i.len() as int) =~= ms);
    out
}

/// Whether the lists hold the identifier under the title.
pub open spec fn lists(per: StrMap<Vec<String>>, title: Seq<char>, id: Seq<char>) -> bool {
    per.has(title) && views(per.value(title)@).contains(id)
}

/// Whether no list holds an identifier twice.
pub open spec fn no_repeats(per: StrMap<Vec<String>>) -> bool {
    forall|t: Seq<char>| #[trigger] per.has(t) ==> views(per.value(t)@).no_duplicates()
}

/// Whether no list is empty.
pub open spec fn no_empty(per: StrMap<Vec<String>>) -> bool {
    forall|t: Seq<char>| #[trigger] per.has(t) ==> per.value(t)@.len() > 0
}

/// Adds an identifier to the list of a title, with a new list where the
/// title has none.
pub fn register_id(per: &mut StrMap<Vec<String>>, title: &str, id: &str)
    requires
        old(per).wf(),
    ensures
        final(per).wf(),
        lists(*final(per), title@, id@),
        forall|t: Seq<char>, x: Seq<char>|
            #![trigger lists(*final(per), t, x)]
            lists(*final(per), t, x) <==> lists(*old(per), t, x) || (t == title@ && x == id@),
        no_repeats(*old(per)) && !lists(*old(per), title@, id@) ==> no_repeats(*final(per)),
        no_empty(*old(per)) ==> no_empty(*final(per)),
{
    let list: Vec<String> = match per.get(title) {
        Some(l) => {
            let mut n = copy_strings(l);
            n.push(id.to_owned());
            assert(views(n@) =~= views(l@).push(id@));
            n
        },
        None => {
            let mut n: Vec<String> = Vec::new();
            n.push(id.to_owned());
            assert(views(n@) =~= Seq::<Seq<char>>::empty().push(id@));
            n
        },
    };
    let ghost new_list = views(list@);
    let ghost old_list = if old(per).has(title@) {
        views(old(per).value(title@)@)
    } else {
        Seq::<Seq<char>>::empty()
    };
    assert(new_list == old_list.push(id@));
    per.insert(title.to_owned(), list);
    proof {
        assert(new_list[new_list.len() - 1] == id@);
        assert forall|t: Seq<char>, x: Seq<char>|
            #![trigger lists(*per, t, x)]
            lists(*per, t, x) <==> lists(*old(per), t, x) || (t == title@ && x == id@) by {
            if t == title@ {
                if new_list.contains(x) {
                    let p = choose|p: int| 0 <= p < new_list.len() && new_list[p] == x;
                    if p < old_list.len() {
                        assert(old_list[p] == x);
                    }
                }
                if old_list.contains(x) {
                    let p = choose|p: int| 0 <= p < old_list.len() && old_list[p] == x;
                    assert(new_list[p] == x);
                }
            }
        }
        if no_empty(*old(per)) {
            assert forall|t: Seq<char>| #[trigger] per.has(t) implies per.value(t)@.len() > 0 by {
                if t == title@ {
                    assert(new_list.len() > 0);
                } else {
                    assert(old(per).has(t));
                }
            }
        }
        if no_repeats(*old(per)) && !lists(*old(per), title@, id@) {
            assert forall|t: Seq<char>| #[trigger] per.has(t) implies views(
                per.value(t)@,
            ).no_duplicates() by {
                if t == title@ {
                    if old(per).has(title@) {
                        assert(old_list.no_duplicates());
                    }
                    assert forall|a: int, b: int|
                        0 <= a < new_list.len() && 0 <= b < new_list.len() && a
                            != b implies new_list[a] != new_list[b] by {
                        if a < old_list.len() && b < old_list.len() {
                            assert(old_list[a] != old_list[b]);
                        } else if a < old_list.len() {
                            assert(old_list.contains(old_list[a]));
                        } else {
                            assert(old_list.contains(old_list[b]));
                        }
                    }
                } else {
                    assert(old(per).has(t));
                }
            }
        }
    }
}

/// Whether every candidate is listed under its title, and every identifier
/// that is listed is a candidate's key.
pub open spec fn linked(cands: StrMap<MeetingCandidate>, per: StrMap<Vec<String>>) -> bool {
    &&& forall|k: Seq<char>| #[trigger] cands.has(k) ==> lists(per, cands.value(k).title@, k)
    &&& forall|t: Seq<char>, x: Seq<char>| #[trigger] lists(per, t, x) ==> cands.has(x)
}

/// Whether each list holds keys of candidates with the list's title only.
pub open spec fn exclusive(cands: StrMap<MeetingCandidate>, per: StrMap<Vec<String>>) -> bool {
    forall|t: Seq<char>, x: Seq<char>| #[trigger]
        lists(per, t, x) ==> cands.has(x) && cands.value(x).title@ == t
}

/// Puts a candidate under a key and lists the key under the candidate's
/// title.
pub fn add_candidate(
    cands: &mut StrMap<MeetingCandidate>,
    per: &mut StrMap<Vec<String>>,
    key: String,
    c: MeetingCandidate,
)
    requires
        old(cands).wf(),
        old(per).wf(),
    ensures
        final(cands).wf(),
        final(per).wf(),
        final(cands).has(key@),
        final(cands).value(key@) == c,
        forall|k: Seq<char>|
            #![trigger final(cands).has(k)]
            final(cands).has(k) <==> old(cands).has(k) || k == key@,
        forall|k: Seq<char>|
            #![trigger final(cands).value(k)]
            old(cands).has(k) && k != key@ ==> final(cands).value(k) == old(cands).value(k),
        forall|t: Seq<char>, x: Seq<char>|
            #![trigger lists(*final(per), t, x)]
            lists(*final(per), t, x) <==> lists(*old(per), t, x) || (t == c.title@ && x == key@),
        linked(*old(cands), *old(per)) ==> linked(*final(cands), *final(per)),
        intervals_ok(*old(cands)) && c.start <= c.end ==> intervals_ok(*final(cands)),
        !old(cands).has(key@) ==> final(cands).spec_keys() == old(cands).spec_keys().push(key@)
            && final(cands).vals@ == old(cands).vals@.push(c),
        !old(cands).has(key@) && exclusive(*old(cands), *old(per)) ==> exclusive(
            *final(cands),
            *final(per),
        ),
        !old(cands).has(key@) && exclusive(*old(cands), *old(per)) && no_repeats(*old(per))
            ==> no_repeats(*final(per)),
        no_empty(*old(per)) ==> no_empty(*final(per)),
{
    register_id(per, c.title.as_str(), key.as_str());
    let ghost had = old(cands).has(key@);
    let ghost at = old(cands).index_of(key@);
    let ghost fits = c.start <= c.end;
    cands.insert(key, c);
    proof {
        if intervals_ok(*old(cands)) && fits {
            assert forall|i: int| 0 <= i < cands.vals.len() implies (#[trigger] cands.vals[i]).start
                <= cands.vals[i].end by {
                if had {
                    if i != at {
                        assert(cands.vals[i] == old(cands).vals[i]);
                    }
                } else {
                    if i < old(cands).vals.len() {
                        assert(cands.vals[i] == old(cands).vals[i]);
                    }
                }
            }
        }
    }
}

/// The optimisation problem of a run.
#[derive(Debug, PartialEq, Eq)]
pub struct SolverInput {
    /// The conflicts: pairs of candidate keys, the first before the second,
    /// that cannot both be chosen.
    pub intersections: Vec<(String, String)>,
    /// For each title of a desired meeting, the keys of its candidates.
    pub candidate_per_desired_meeting: StrMap<Vec<String>>,
    /// The candidates, each under its identifier.
    pub candidates: StrMap<MeetingCandidate>,
    /// The meetings that are asked for.
    pub desired_meetings: Vec<DesiredMeeting>,
}

/// Whether a slot is one of those generated for the meeting.
pub open spec fn is_slot_of(slot: MeetingView, m: DesiredView, opts: Options) -> bool {
    &&& spec_slots(m, opts.reject_date_fn, opts.reject_datetime_fn) matches Some(l) && l.contains(
        slot,
    )
    &&& slot_holds(m, opts.reject_date_fn, opts.reject_datetime_fn, slot)
}

/// Whether the candidate under a key is the one built for a slot of the
/// meeting.
pub open spec fn stems_from(
    c: CandidateView,
    key: Seq<char>,
    m: DesiredView,
    avail: Availability,
    opts: Options,
) -> bool {
    exists|slot: MeetingView|
        #![trigger is_slot_of(slot, m, opts)]
        is_slot_of(slot, m, opts) && slot.id == key && spec_candidate(
            m,
            avail,
            key,
            opts.room_picker_fn,
            slot,
        ) == Some(c)
}

/// Whether every candidate was built for a slot of one of the meetings.
pub open spec fn sound(
    cands: StrMap<MeetingCandidate>,
    ms: Seq<DesiredView>,
    avail: Availability,
    opts: Options,
) -> bool {
    forall|k: Seq<char>| #[trigger]
        cands.has(k) ==> exists|j: int|
            0 <= j < ms.len() && stems_from(cands.value(k)@, k, #[trigger] ms[j], avail, opts)
}

/// Whether each of the slots that gives a candidate has one under its
/// identifier, listed under the meeting's title.
pub open spec fn complete_for(
    cands: StrMap<MeetingCandidate>,
    per: StrMap<Vec<String>>,
    m: DesiredView,
    slots: Seq<MeetingView>,
    avail: Availability,
    opts: Options,
) -> bool {
    forall|q: int|
        0 <= q < slots.len() && spec_candidate(
            m,
            avail,
            (#[trigger] slots[q]).id,
            opts.room_picker_fn,
            slots[q],
        ) is Some ==> cands.has(slots[q].id) && lists(per, m.title, slots[q].id)
}

/// `complete_for` of the slots of each of the meetings.
pub open spec fn complete(
    cands: StrMap<MeetingCandidate>,
    per: StrMap<Vec<String>>,
    ms: Seq<DesiredView>,
    avail: Availability,
    opts: Options,
) -> bool {
    forall|j: int|
        0 <= j < ms.len() ==> match spec_slots(
            #[trigger] ms[j],
            opts.reject_date_fn,
            opts.reject_datetime_fn,
        ) {
            Some(l) => complete_for(cands, per, ms[j], l, avail, opts),
            None => true,
        }
}

/// Whether a key is the identifier of a slot of one of the first `n`
/// meetings.
pub open spec fn from_first(ms: Seq<DesiredView>, n: int, key: Seq<char>) -> bool {
    exists|j: int| 0 <= j < n && is_id_of((#[trigger] ms[j]).slug, key)
}

/// Whether a key is the identifier of one of the first `n` slots.
pub open spec fn among(slots: Seq<MeetingView>, n: int, key: Seq<char>) -> bool {
    exists|q: int| 0 <= q < n && (#[trigger] slots[q]).id == key
}

/// Whether the slots of each meeting carry identifiers of the meeting's
/// slug, no two the same.
pub open spec fn slots_tidy(ms: Seq<DesiredView>, opts: Options) -> bool {
    forall|j: int|
        0 <= j < ms.len() ==> match spec_slots(
            #[trigger] ms[j],
            opts.reject_date_fn,
            opts.reject_datetime_fn,
        ) {
            Some(l) => ids_ok(l, ms[j].slug),
            None => true,
        }
}

/// What holds of the problem that is built from desired meetings, calendars
/// and policies: it keeps the meetings; each candidate is the one built for a
/// slot of one of them; each slot that gives a candidate has one; and the
/// problem is consistent.
pub open spec fn built_from(
    s: SolverInput,
    ms: Seq<DesiredMeeting>,
    avail: Availability,
    opts: Options,
) -> bool {
    &&& s.consistent()
    &&& desired_views(s.desired_meetings@) == desired_views(ms)
    &&& sound(s.candidates, desired_views(ms), avail, opts)
    &&& complete(s.candidates, s.candidate_per_desired_meeting, desired_views(ms), avail, opts)
    &&& slots_tidy(desired_views(ms), opts)
}

/// Whether the slots of every meeting of the list can be generated.
pub open spec fn all_generate(ms: Seq<DesiredView>, opts: Options) -> bool {
    forall|j: int|
        0 <= j < ms.len() ==> spec_slot_error(
            #[trigger] ms[j],
            opts.reject_date_fn,
            opts.reject_datetime_fn,
        ) is None
}

/// Whether the meetings are well formed, no two have the same slug, and the
/// store holds a calendar for everyone whom they concern.
pub open spec fn ready(ms: Seq<DesiredMeeting>, avail: Availability, opts: Options) -> bool {
    &&& avail.wf()
    &&& slugs_distinct(ms)
    &&& forall|j: int|
        0 <= j < ms.len() ==> (#[trigger] ms[j]).wf() && covers(avail, ms[j]@, opts.room_picker_fn)
}

/// Whether the meetings are well formed, no two have the same slug, and the
/// store holds a calendar for everyone whom they concern.
pub fn is_ready(ms: &Vec<DesiredMeeting>, avail: &Availability, opts: &Options) -> (r: bool)
    ensures
        r == ready(ms@, *avail, *opts),
{
    if !avail.is_wf() || !has_distinct_slugs(ms) {
        return false;
    }
    let mut j: usize = 0;
    while j < ms.len()
        invariant
            j <= ms.len(),
            avail.wf(),
            slugs_distinct(ms@),
            forall|k: int|
                0 <= k < j ==> (#[trigger] ms[k]).wf() && covers(
                    *avail,
                    ms[k]@,
                    opts.room_picker_fn,
                ),
        decreases ms.len() - j,
    {
        if !ms[j].is_wf() || !crate::candidate::is_covered(avail, &ms[j], &opts.room_picker_fn) {
            return false;
        }
        j += 1;
    }
    true
}

impl SolverInput {
    /// Whether the two maps are well formed.
    pub fn is_wf(&self) -> (r: bool)
        ensures
            r == self.wf(),
    {
        self.candidates.is_wf() && self.candidate_per_desired_meeting.is_wf()
    }

    /// The two maps are well formed.
    pub open spec fn wf(&self) -> bool {
        self.candidates.wf() && self.candidate_per_desired_meeting.wf()
    }

    /// What holds of a problem that was built from desired meetings: no
    /// candidate ends before it starts; each is listed under its title, once,
    /// and under no other; each listed identifier is a candidate's; no list
    /// is empty; and the conflicts are exactly the pairs of candidates that share time, each
    /// once with the smaller key first.
    pub open spec fn consistent(&self) -> bool {
        &&& self.wf()
        &&& intervals_ok(self.candidates)
        &&& linked(self.candidates, self.candidate_per_desired_meeting)
        &&& exclusive(self.candidates, self.candidate_per_desired_meeting)
        &&& no_repeats(self.candidate_per_desired_meeting)
        &&& no_empty(self.candidate_per_desired_meeting)
        &&& pair_views(self.intersections@).no_duplicates()
        &&& forall|a: Seq<char>, b: Seq<char>|
            #![trigger pair_views(self.intersections@).contains((a, b))]
            pair_views(self.intersections@).contains((a, b)) <==> is_conflict(
                self.candidates,
                a,
                b,
            )
    }

    /// A problem with nothing in it.
    pub fn new() -> (s: SolverInput)
        ensures
            s.wf(),
            s.intersections@.len() == 0,
            s.candidates.keys@.len() == 0,
            s.candidate_per_desired_meeting.keys@.len() == 0,
            s.desired_meetings@.len() == 0,
    {
        SolverInput {
            intersections: Vec::new(),
            candidate_per_desired_meeting: StrMap::new(),
            candidates: StrMap::new(),
            desired_meetings: Vec::new(),
        }
    }

    /// The problem for the desired meetings, the policies and the calendars:
    /// for each meeting its slots, for each slot its candidate if there is
    /// one, and the conflicts among the candidates. Fails with the error of
    /// the first meeting whose slots cannot be generated.
    pub fn new_from_desired_meetings_and_opts(
        desired_meetings: Vec<DesiredMeeting>,
        opts: &Options,
        avail: &Availability,
    ) -> (r: Result<SolverInput, SlotError>)
        requires
            ready(desired_meetings@, *avail, *opts),
        ensures
            r is Ok <==> all_generate(desired_views(desired_meetings@), *opts),
            match r {
                Ok(s) => built_from(s, desired_meetings@, *avail, *opts),
                Err(e) => exists|j: int|
                    0 <= j < desired_meetings.len() && spec_slot_error(
                        #[trigger] desired_views(desired_meetings@)[j],
                        opts.reject_date_fn,
                        opts.reject_datetime_fn,
                    ) == Some(e) && all_generate(
                        desired_views(desired_meetings@).take(j),
                        *opts,
                    ),
            },
    {
        let ghost ms = desired_views(desired_meetings@);
        let mut cands: StrMap<MeetingCandidate> = StrMap::new();
        let mut per: StrMap<Vec<String>> = StrMap::new();
        let mut j: usize = 0;
        while j < desired_meetings.len()
            invariant
                j <= desired_meetings.len(),
                ms == desired_views(desired_meetings@),
                ready(desired_meetings@, *avail, *opts),
                cands.wf(),
                per.wf(),
                intervals_ok(cands),
                linked(cands, per),
                exclusive(cands, per),
                no_repeats(per),
                no_empty(per),
                slots_tidy(ms.take(j as int), *opts),
                forall|k: Seq<char>| #[trigger] cands.has(k) ==> from_first(ms, j as int, k),
                sound(cands, ms, *avail, *opts),
                complete(cands, per, ms.take(j as int), *avail, *opts),
                all_generate(ms.take(j as int), *opts),
            decreases desired_meetings.len() - j,
        {
            let me = &desired_meetings[j];
            assert(ms[j as int] == me@);
            let slots = match generate_all_possible_meetings(
                me,
                &opts.reject_date_fn,
                &opts.reject_datetime_fn,
            ) {
                Ok(l) => l,
                Err(e) => {
                    proof {
                        assert(!all_generate(ms, *opts));
                    }
                    return Err(e);
                },
            };
            let ghost sv = meeting_views(slots@);
            let ghost cands0 = cands;
            let ghost per0 = per;
            let mut q: usize = 0;
            while q < slots.len()
                invariant
                    q <= slots.len(),
                    j < desired_meetings.len(),
                    me == &desired_meetings[j as int],
                    ms == desired_views(desired_meetings@),
                    ms[j as int] == me@,
                    sv == meeting_views(slots@),
                    spec_slots(me@, opts.reject_date_fn, opts.reject_datetime_fn) == Some(sv),
                    all_slots_hold(me@, opts.reject_date_fn, opts.reject_datetime_fn, sv),
                    ids_ok(sv, me.slug@),
                    ready(desired_meetings@, *avail, *opts),
                    cands.wf(),
                    per.wf(),
                    intervals_ok(cands),
                    linked(cands, per),
                    exclusive(cands, per),
                    no_repeats(per),
                    no_empty(per),
                    forall|k: Seq<char>| #[trigger]
                        cands.has(k) ==> from_first(ms, j as int, k) || among(sv, q as int, k),
                    sound(cands, ms, *avail, *opts),
                    complete_for(cands, per, me@, sv.take(q as int), *avail, *opts),
                    forall|k: Seq<char>| cands0.has(k) ==> #[trigger] cands.has(k),
                    forall|t: Seq<char>, x: Seq<char>|
                        lists(per0, t, x) ==> #[trigger] lists(per, t, x),
                decreases slots.len() - q,
            {
                let slot = &slots[q];
                let ghost cands1 = cands;
                let ghost per1 = per;
                proof {
                    assert(sv[q as int] == slot@);
                    assert(slot_holds(me@, opts.reject_date_fn, opts.reject_datetime_fn, sv[q as int]));
                    assert(slot.start <= slot.end);
                }
                match generate_meeting_candidate(
                    me,
                    avail,
                    slot.id.clone(),
                    &opts.room_picker_fn,
                    slot,
                ) {
                    Some(c) => {
                        let ghost cv = c@;
                        assert(c.title@ == me.title@);
                        assert(c.start <= c.end);
                        proof {
                            let key = slot.id@;
                            assert(is_id_of(me.slug@, sv[q as int].id));
                            if cands.has(key) {
                                if from_first(ms, j as int, key) {
                                    let j0 = choose|j0: int|
                                        0 <= j0 < j && is_id_of((#[trigger] ms[j0]).slug, key);
                                    let (d0, k0) = choose|d0: nat, k0: nat|
                                        key == #[trigger] crate::gen::full_id(ms[j0].slug, d0, k0);
                                    let (d1, k1) = choose|d1: nat, k1: nat|
                                        key == #[trigger] crate::gen::full_id(me.slug@, d1, k1);
                                    lemma_full_id_injective(ms[j0].slug, d0, k0, me.slug@, d1, k1);
                                    assert(ms[j0] == desired_meetings[j0]@);
                                    assert(desired_meetings[j0].slug@ != desired_meetings[j as int].slug@);
                                    assert(false);
                                } else {
                                    let q0 = choose|q0: int|
                                        0 <= q0 < q && (#[trigger] sv[q0]).id == key;
                                    assert(sv[q0].id != sv[q as int].id);
                                    assert(false);
                                }
                            }
                        }
                        add_candidate(&mut cands, &mut per, slot.id.clone(), c);
                        proof {
                            assert(sv.contains(slot@));
                            assert(is_slot_of(slot@, me@, *opts));
                            assert(stems_from(cv, slot.id@, ms[j as int], *avail, *opts));
                            assert forall|k: Seq<char>| #[trigger] cands.has(k) implies exists|
                                p: int,
                            |
                                0 <= p < ms.len() && stems_from(
                                    cands.value(k)@,
                                    k,
                                    #[trigger] ms[p],
                                    *avail,
                                    *opts,
                                ) by {
                                if k == slot.id@ {
                                    assert(stems_from(
                                        cands.value(k)@,
                                        k,
                                        ms[j as int],
                                        *avail,
                                        *opts,
                                    ));
                                } else {
                                    assert(cands1.has(k));
                                    assert(cands.value(k) == cands1.value(k));
                                    let p = choose|p: int|
                                        0 <= p < ms.len() && stems_from(
                                            cands1.value(k)@,
                                            k,
                                            #[trigger] ms[p],
                                            *avail,
                                            *opts,
                                        );
                                    assert(stems_from(cands.value(k)@, k, ms[p], *avail, *opts));
                                }
                            }
                        }
                    },
                    None => {},
                }
                proof {
                    let next = sv.take(q + 1);
                    let done = sv.take(q as int);
                    assert forall|p: int|
                        0 <= p < next.len() && spec_candidate(
                            me@,
                            *avail,
                            (#[trigger] next[p]).id,
                            opts.room_picker_fn,
                            next[p],
                        ) is Some implies cands.has(next[p].id) && lists(
                        per,
                        me@.title,
                        next[p].id,
                    ) by {
                        if p < q {
                            assert(done[p] == next[p]);
                            assert(cands1.has(done[p].id) && lists(per1, me@.title, done[p].id));
                            assert(cands.has(next[p].id));
                            assert(lists(per, me@.title, next[p].id));
                        } else {
                            assert(next[p] == slot@);
                        }
                    }
                    assert forall|k: Seq<char>| cands0.has(k) implies #[trigger] cands.has(k) by {
                        assert(cands1.has(k));
                    }
                    assert forall|k: Seq<char>| #[trigger] cands.has(k) implies from_first(
                        ms,
                        j as int,
                        k,
                    ) || among(sv, q + 1, k) by {
                        if cands1.has(k) {
                            if among(sv, q as int, k) {
                                let q0 = choose|q0: int|
                                    0 <= q0 < q && (#[trigger] sv[q0]).id == k;
                                assert(0 <= q0 < q + 1 && sv[q0].id == k);
                            }
                        } else {
                            assert(k == slot.id@);
                            assert(sv[q as int].id == k);
                        }
                    }
                    assert forall|t: Seq<char>, x: Seq<char>| lists(per0, t, x) implies #[trigger] lists(
                        per,
                        t,
                        x,
                    ) by {
                        assert(lists(per1, t, x));
                    }
                }
                q += 1;
            }
            proof {
                assert(sv.take(slots.len() as int) =~= sv);
                let done = ms.take(j as int);
                let next = ms.take(j + 1);
                assert forall|p: int| 0 <= p < next.len() implies match spec_slots(
                    #[trigger] next[p],
                    opts.reject_date_fn,
                    opts.reject_datetime_fn,
                ) {
                    Some(l) => complete_for(cands, per, next[p], l, *avail, *opts),
                    None => true,
                } by {
                    if p < j {
                        assert(done[p] == next[p]);
                        match spec_slots(done[p], opts.reject_date_fn, opts.reject_datetime_fn) {
                            Some(l) => {
                                assert(complete_for(cands0, per0, done[p], l, *avail, *opts));
                                assert forall|q: int|
                                    0 <= q < l.len() && spec_candidate(
                                        next[p],
                                        *avail,
                                        (#[trigger] l[q]).id,
                                        opts.room_picker_fn,
                                        l[q],
                                    ) is Some implies cands.has(l[q].id) && lists(
                                    per,
                                    next[p].title,
                                    l[q].id,
                                ) by {
                                    assert(cands0.has(l[q].id));
                                    assert(lists(per0, next[p].title, l[q].id));
                                }
                            },
                            None => {},
                        }
                    } else {
                        assert(next[p] == me@);
                    }
                }
                assert forall|p: int| 0 <= p < next.len() implies spec_slot_error(
                    #[trigger] next[p],
                    opts.reject_date_fn,
                    opts.reject_datetime_fn,
                ) is None by {
                    if p < j {
                        assert(done[p] == next[p]);
                    } else {
                        assert(next[p] == me@);
                    }
                }
                assert forall|p: int| 0 <= p < next.len() implies match spec_slots(
                    #[trigger] next[p],
                    opts.reject_date_fn,
                    opts.reject_datetime_fn,
                ) {
                    Some(l) => ids_ok(l, next[p].slug),
                    None => true,
                } by {
                    if p < j {
                        assert(done[p] == next[p]);
                    } else {
                        assert(next[p] == me@);
                    }
                }
                assert forall|k: Seq<char>| #[trigger] cands.has(k) implies from_first(
                    ms,
                    j + 1,
                    k,
                ) by {
                    if from_first(ms, j as int, k) {
                        let j0 = choose|j0: int|
                            0 <= j0 < j && is_id_of((#[trigger] ms[j0]).slug, k);
                        assert(0 <= j0 < j + 1 && is_id_of(ms[j0].slug, k));
                    } else {
                        let q0 = choose|q0: int|
                            0 <= q0 < slots.len() && (#[trigger] sv[q0]).id == k;
                        assert(is_id_of(me.slug@, sv[q0].id));
                        assert(is_id_of(ms[j as int].slug, k));
                    }
                }
            }
            j += 1;
        }
        assert(ms.take(desired_meetings.len() as int) =~= ms);
        let intersections = build_intersections_pairs(&cands);
        Ok(
            SolverInput {
                intersections,
                candidate_per_desired_meeting: per,
                candidates: cands,
                desired_meetings,
            },
        )
    }
}

} // verus!
