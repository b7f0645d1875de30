//! The problem that is built from desired meetings, calendars and policies is
//! determined by them, and so is its text.

use crate::candidate::spec_candidate;
use crate::conflict::{is_conflict, pair_views};
use crate::gen::{full_id, ids_ok, is_id_of, lemma_full_id_injective, spec_slots};
use crate::input::slugs_distinct;
use crate::lp::lp_text;
use crate::order::{
    law_encoding_ignores_order, lemma_same_elements, same_lists, same_pairs, same_problem,
    same_scores,
};
use crate::solver::{built_from, complete_for, is_slot_of, lists, stems_from, SolverInput};
use crate::text::views;
use crate::types::{desired_views, Availability, DesiredMeeting, MeetingView, Options};
use vstd::prelude::*;

verus! {

/// A key is that of a slot of one meeting only, and of one slot only.
proof fn lemma_one_slot(
    ms: Seq<DesiredMeeting>,
    opts: Options,
    key: Seq<char>,
    j: int,
    slot: MeetingView,
    k: int,
    other: MeetingView,
)
    requires
        slugs_distinct(ms),
        crate::solver::slots_tidy(desired_views(ms), opts),
        0 <= j < ms.len(),
        0 <= k < ms.len(),
        is_slot_of(slot, desired_views(ms)[j], opts),
        is_slot_of(other, desired_views(ms)[k], opts),
        slot.id == key,
        other.id == key,
    ensures
        j == k,
        slot == other,
{
    let mv = desired_views(ms);
    let l = spec_slots(mv[j], opts.reject_date_fn, opts.reject_datetime_fn)->0;
    let m = spec_slots(mv[k], opts.reject_date_fn, opts.reject_datetime_fn)->0;
    assert(ids_ok(l, mv[j].slug));
    assert(ids_ok(m, mv[k].slug));
    let p = choose|p: int| 0 <= p < l.len() && l[p] == slot;
    let q = choose|q: int| 0 <= q < m.len() && m[q] == other;
    assert(is_id_of(mv[j].slug, l[p].id));
    assert(is_id_of(mv[k].slug, m[q].id));
    let (d0, n0) = choose|d0: nat, n0: nat| key == #[trigger] full_id(mv[j].slug, d0, n0);
    let (d1, n1) = choose|d1: nat, n1: nat| key == #[trigger] full_id(mv[k].slug, d1, n1);
    lemma_full_id_injective(mv[j].slug, d0, n0, mv[k].slug, d1, n1);
    assert(mv[j] == ms[j]@ && mv[k] == ms[k]@);
    if j < k {
        assert(ms[j].slug@ != ms[k].slug@);
    } else if k < j {
        assert(ms[k].slug@ != ms[j].slug@);
    }
    if p < q {
        assert(l[p].id != l[q].id);
    } else if q < p {
        assert(l[q].id != l[p].id);
    }
}

/// Two problems that were built from the same meetings, calendars and
/// policies have the same keys, and under each key the same candidate.
proof fn lemma_same_candidates(
    a: SolverInput,
    b: SolverInput,
    ms: Seq<DesiredMeeting>,
    avail: Availability,
    opts: Options,
    key: Seq<char>,
)
    requires
        built_from(a, ms, avail, opts),
        built_from(b, ms, avail, opts),
        slugs_distinct(ms),
        a.candidates.has(key),
    ensures
        b.candidates.has(key),
        b.candidates.value(key)@ == a.candidates.value(key)@,
{
    let mv = desired_views(ms);
    let c = a.candidates.value(key)@;
    let j = choose|j: int|
        0 <= j < mv.len() && stems_from(c, key, #[trigger] mv[j], avail, opts);
    let slot = choose|slot: MeetingView|
        #![trigger is_slot_of(slot, mv[j], opts)]
        is_slot_of(slot, mv[j], opts) && slot.id == key && spec_candidate(
            mv[j],
            avail,
            key,
            opts.room_picker_fn,
            slot,
        ) == Some(c);
    let l = spec_slots(mv[j], opts.reject_date_fn, opts.reject_datetime_fn)->0;
    let p = choose|p: int| 0 <= p < l.len() && l[p] == slot;
    assert(complete_for(
        b.candidates,
        b.candidate_per_desired_meeting,
        mv[j],
        l,
        avail,
        opts,
    ));
    assert(spec_candidate(mv[j], avail, l[p].id, opts.room_picker_fn, l[p]) is Some);
    assert(b.candidates.has(key));
    let d = b.candidates.value(key)@;
    let k = choose|k: int|
        0 <= k < mv.len() && stems_from(d, key, #[trigger] mv[k], avail, opts);
    let other = choose|other: MeetingView|
        #![trigger is_slot_of(other, mv[k], opts)]
        is_slot_of(other, mv[k], opts) && other.id == key && spec_candidate(
            mv[k],
            avail,
            key,
            opts.room_picker_fn,
            other,
        ) == Some(d);
    lemma_one_slot(ms, opts, key, j, slot, k, other);
}

/// The lists of two problems that were built from the same meetings,
/// calendars and policies hold the same identifiers under the same titles.
proof fn lemma_same_listed(
    a: SolverInput,
    b: SolverInput,
    ms: Seq<DesiredMeeting>,
    avail: Availability,
    opts: Options,
    t: Seq<char>,
    x: Seq<char>,
)
    requires
        built_from(a, ms, avail, opts),
        built_from(b, ms, avail, opts),
        slugs_distinct(ms),
        lists(a.candidate_per_desired_meeting, t, x),
    ensures
        lists(b.candidate_per_desired_meeting, t, x),
{
    assert(a.candidates.has(x) && a.candidates.value(x).title@ == t);
    lemma_same_candidates(a, b, ms, avail, opts, x);
    assert(b.candidates.has(x));
    assert(lists(b.candidate_per_desired_meeting, b.candidates.value(x).title@, x));
}

/// The problem that is built from desired meetings, calendars and policies
/// is determined by them: two such problems hold the same candidates, lists
/// and conflicts, and have the same text.
pub proof fn law_problem_is_determined(
    a: SolverInput,
    b: SolverInput,
    ms: Seq<DesiredMeeting>,
    avail: Availability,
    opts: Options,
)
    requires
        built_from(a, ms, avail, opts),
        built_from(b, ms, avail, opts),
        slugs_distinct(ms),
    ensures
        same_problem(a, b),
        lp_text(a) == lp_text(b),
{
    let pa = a.candidate_per_desired_meeting;
    let pb = b.candidate_per_desired_meeting;
    assert forall|k: Seq<char>|
        #![trigger a.candidates.has(k)]
        #![trigger b.candidates.has(k)]
        (a.candidates.has(k) <==> b.candidates.has(k)) && (a.candidates.has(k)
            ==> a.candidates.value(k)@ == b.candidates.value(k)@) by {
        if a.candidates.has(k) {
            lemma_same_candidates(a, b, ms, avail, opts, k);
        }
        if b.candidates.has(k) {
            lemma_same_candidates(b, a, ms, avail, opts, k);
        }
    }
    assert(same_scores(a.candidates, b.candidates)) by {
        assert forall|k: Seq<char>|
            #![trigger a.candidates.has(k)]
            #![trigger b.candidates.has(k)]
            (a.candidates.has(k) <==> b.candidates.has(k)) && (a.candidates.has(k)
                ==> a.candidates.value(k).score == b.candidates.value(k).score) by {
            if a.candidates.has(k) {
                assert(a.candidates.value(k)@.score == b.candidates.value(k)@.score);
            }
        }
    }
    assert(same_lists(pa, pb)) by {
        assert forall|t: Seq<char>|
            #![trigger pa.has(t)]
            #![trigger pb.has(t)]
            (pa.has(t) <==> pb.has(t)) && (pa.has(t) ==> views(pa.value(t)@).to_multiset()
                == views(pb.value(t)@).to_multiset()) by {
            if pa.has(t) {
                let x = views(pa.value(t)@)[0];
                assert(lists(pa, t, x));
                lemma_same_listed(a, b, ms, avail, opts, t, x);
            }
            if pb.has(t) {
                let x = views(pb.value(t)@)[0];
                assert(lists(pb, t, x));
                lemma_same_listed(b, a, ms, avail, opts, t, x);
            }
            if pa.has(t) {
                let la = views(pa.value(t)@);
                let lb = views(pb.value(t)@);
                assert forall|x: Seq<char>| la.contains(x) <==> lb.contains(x) by {
                    if la.contains(x) {
                        assert(lists(pa, t, x));
                        lemma_same_listed(a, b, ms, avail, opts, t, x);
                    }
                    if lb.contains(x) {
                        assert(lists(pb, t, x));
                        lemma_same_listed(b, a, ms, avail, opts, t, x);
                    }
                }
                lemma_same_elements(la, lb);
            }
        }
    }
    assert(same_pairs(a.intersections@, b.intersections@)) by {
        assert forall|p: (Seq<char>, Seq<char>)|
            pair_views(a.intersections@).contains(p) <==> pair_views(b.intersections@).contains(
                p,
            ) by {
            assert(pair_views(a.intersections@).contains((p.0, p.1)) <==> is_conflict(
                a.candidates,
                p.0,
                p.1,
            ));
            assert(pair_views(b.intersections@).contains((p.0, p.1)) <==> is_conflict(
                b.candidates,
                p.0,
                p.1,
            ));
            assert(a.candidates.has(p.0) <==> b.candidates.has(p.0));
            assert(a.candidates.has(p.1) <==> b.candidates.has(p.1));
        }
    }
    law_encoding_ignores_order(a, b);
}

} // verus!
