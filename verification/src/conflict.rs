//! The conflict indexer: which candidates share time.

use crate::strmap::{str_same, StrMap};
use crate::text::{lemma_str_le_total, str_le, string_le};
use crate::tree::{
    entry_views, find_overlapping, overlaps, tree_entries, tree_insert, tree_new, MeetingsTree,
};
use crate::types::{CandidateView, MeetingCandidate};
use vstd::prelude::*;

verus! {

/// Whether two candidates share time: both intervals are non-empty and each
/// starts before the other ends.
pub open spec fn share_time(a: CandidateView, b: CandidateView) -> bool {
    overlaps(a.start, a.end, b.start, b.end)
}

/// Whether `a` comes strictly before `b` in lexicographic order.
pub open spec fn str_lt(a: Seq<char>, b: Seq<char>) -> bool {
    str_le(a, b) && a != b
}

/// Whether `(a, b)` is a conflict of the candidates: two of their keys, the
/// first before the second, whose candidates share time.
pub open spec fn is_conflict(cands: StrMap<MeetingCandidate>, a: Seq<char>, b: Seq<char>) -> bool {
    &&& cands.has(a)
    &&& cands.has(b)
    &&& str_lt(a, b)
    &&& share_time(cands.value(a)@, cands.value(b)@)
}

/// Pairs of strings as pairs of texts.
pub open spec fn pair_views(v: Seq<(String, String)>) -> Seq<(Seq<char>, Seq<char>)> {
    v.map_values(|p: (String, String)| (p.0@, p.1@))
}

/// Whether no candidate ends before it starts.
pub open spec fn intervals_ok(cands: StrMap<MeetingCandidate>) -> bool {
    forall|i: int| 0 <= i < cands.vals.len() ==> (#[trigger] cands.vals[i]).start <= cands.vals[i].end
}

/// The interval and key of the candidate at a position.
pub open spec fn entry_at(cands: StrMap<MeetingCandidate>, i: int) -> (int, int, Seq<char>) {
    (cands.vals[i].start as int, cands.vals[i].end as int, cands.keys[i]@)
}

/// Whether a tree indexes exactly the candidates: each under its key, and
/// nothing else.
pub open spec fn indexes(t: MeetingsTree, cands: StrMap<MeetingCandidate>, n: int) -> bool {
    forall|e: (int, int, Seq<char>)|
        tree_entries(t).count(e) > 0 <==> exists|i: int| 0 <= i < n && entry_at(cands, i) == e
}

/// The index of the candidates by their intervals, each with its key.
pub fn index_candidates(candidates: &StrMap<MeetingCandidate>) -> (t: MeetingsTree)
    requires
        candidates.wf(),
        intervals_ok(*candidates),
    ensures
        indexes(t, *candidates, candidates.keys.len() as int),
{
    broadcast use vstd::multiset::group_multiset_axioms;

    let mut t = tree_new();
    let mut i: usize = 0;
    while i < candidates.len()
        invariant
            i <= candidates.keys.len(),
            candidates.wf(),
            intervals_ok(*candidates),
            indexes(t, *candidates, i as int),
        decreases candidates.keys.len() - i,
    {
        let c = &candidates.vals[i];
        let ghost old_t = t;
        tree_insert(&mut t, c.start, c.end, candidates.keys[i].clone());
        proof {
            let added = entry_at(*candidates, i as int);
            assert(tree_entries(t) == tree_entries(old_t).insert(added));
            assert forall|e: (int, int, Seq<char>)|
                tree_entries(t).count(e) > 0 <==> exists|j: int|
                    0 <= j < i + 1 && entry_at(*candidates, j) == e by {
                if tree_entries(t).count(e) > 0 {
                    if e == added {
                        assert(entry_at(*candidates, i as int) == e);
                    } else {
                        assert(tree_entries(old_t).count(e) > 0);
                        let j = choose|j: int| 0 <= j < i && entry_at(*candidates, j) == e;
                        assert(0 <= j < i + 1 && entry_at(*candidates, j) == e);
                    }
                }
                if exists|j: int| 0 <= j < i + 1 && entry_at(*candidates, j) == e {
                    let j = choose|j: int| 0 <= j < i + 1 && entry_at(*candidates, j) == e;
                    if j < i {
                        assert(tree_entries(old_t).count(e) > 0);
                    }
                }
            }
        }
        i += 1;
    }
    t
}

/// Whether the pair is in the list.
fn has_pair(out: &Vec<(String, String)>, a: &str, b: &str) -> (r: bool)
    ensures
        r == pair_views(out@).contains((a@, b@)),
{
    let mut i: usize = 0;
    while i < out.len()
        invariant
            i <= out.len(),
            forall|j: int| 0 <= j < i ==> pair_views(out@)[j] != (a@, b@),
        decreases out.len() - i,
    {
        if str_same(out[i].0.as_str(), a) && str_same(out[i].1.as_str(), b) {
            assert(pair_views(out@)[i as int] == (a@, b@));
            return true;
        }
        i += 1;
    }
    false
}

/// Whether one of the first `n` entries carries the key.
pub open spec fn seen(found: Seq<(int, int, Seq<char>)>, n: int, key: Seq<char>) -> bool {
    exists|k: int| 0 <= k < n && (#[trigger] found[k]).2 == key
}

/// Whether the conflict `(a, b)` is due once the candidates before position
/// `i` are done and the first `n` neighbours of the candidate at `i` are.
pub open spec fn due(
    cands: StrMap<MeetingCandidate>,
    found: Seq<(int, int, Seq<char>)>,
    i: int,
    n: int,
    a: Seq<char>,
    b: Seq<char>,
) -> bool {
    &&& is_conflict(cands, a, b)
    &&& {
        ||| cands.index_of(a) < i
        ||| cands.index_of(b) < i
        ||| cands.index_of(a) == i && seen(found, n, b)
        ||| cands.index_of(b) == i && seen(found, n, a)
    }
}

/// The conflicts of the candidates: each unordered pair of candidates that
/// share time, once, as the two keys in lexicographic order.
pub fn build_intersections_pairs(candidates: &StrMap<MeetingCandidate>) -> (r: Vec<
    (String, String),
>)
    requires
        candidates.wf(),
        intervals_ok(*candidates),
    ensures
        pair_views(r@).no_duplicates(),
        forall|a: Seq<char>, b: Seq<char>|
            #![trigger pair_views(r@).contains((a, b))]
            pair_views(r@).contains((a, b)) <==> is_conflict(*candidates, a, b),
{
    let tree = index_candidates(candidates);
    let mut out: Vec<(String, String)> = Vec::new();
    let mut i: usize = 0;
    let ghost none = Seq::<(int, int, Seq<char>)>::empty();
    while i < candidates.len()
        invariant
            i <= candidates.keys.len(),
            candidates.wf(),
            intervals_ok(*candidates),
            indexes(tree, *candidates, candidates.keys.len() as int),
            pair_views(out@).no_duplicates(),
            forall|a: Seq<char>, b: Seq<char>|
                #![trigger pair_views(out@).contains((a, b))]
                pair_views(out@).contains((a, b)) <==> due(*candidates, none, i as int, 0, a, b),
        decreases candidates.keys.len() - i,
    {
        let c = &candidates.vals[i];
        let key = &candidates.keys[i];
        let found = find_overlapping(&tree, c.start, c.end);
        let ghost fv = entry_views(found@);
        proof {
            candidates.lemma_index(i as int);
            assert forall|a: Seq<char>, b: Seq<char>|
                #![trigger due(*candidates, fv, i as int, 0, a, b)]
                due(*candidates, none, i as int, 0, a, b) == due(
                    *candidates,
                    fv,
                    i as int,
                    0,
                    a,
                    b,
                ) by {}
        }
        let mut k: usize = 0;
        while k < found.len()
            invariant
                k <= found.len(),
                i < candidates.keys.len(),
                candidates.wf(),
                fv == entry_views(found@),
                c == &candidates.vals[i as int],
                key == &candidates.keys[i as int],
                candidates.index_of(key@) == i,
                candidates.has(key@),
                indexes(tree, *candidates, candidates.keys.len() as int),
                forall|q: int|
                    0 <= q < found.len() ==> {
                        let e = #[trigger] fv[q];
                        tree_entries(tree).count(e) > 0 && overlaps(
                            e.0,
                            e.1,
                            c.start as int,
                            c.end as int,
                        )
                    },
                pair_views(out@).no_duplicates(),
                forall|a: Seq<char>, b: Seq<char>|
                    #![trigger pair_views(out@).contains((a, b))]
                    pair_views(out@).contains((a, b)) <==> due(
                        *candidates,
                        fv,
                        i as int,
                        k as int,
                        a,
                        b,
                    ),
            decreases found.len() - k,
        {
            let other = &found[k].2;
            let ghost e = fv[k as int];
            let ghost before = pair_views(out@);
            proof {
                assert(e.2 == other@);
                assert(tree_entries(tree).count(e) > 0);
                let j = choose|j: int|
                    0 <= j < candidates.keys.len() && entry_at(*candidates, j) == e;
                candidates.lemma_index(j);
                assert(candidates.has(other@) && candidates.value(other@)@.start == e.0
                    && candidates.value(other@)@.end == e.1);
                assert(candidates.value(key@) == candidates.vals[i as int]);
            }
            if !str_same(other.as_str(), key.as_str()) {
                let first_is_other = string_le(other.as_str(), key.as_str());
                let (a, b) = if first_is_other {
                    (other.clone(), key.clone())
                } else {
                    (key.clone(), other.clone())
                };
                proof {
                    lemma_str_le_total(other@, key@);
                    assert(is_conflict(*candidates, a@, b@));
                }
                if !has_pair(&out, a.as_str(), b.as_str()) {
                    out.push((a, b));
                    proof {
                        let after = pair_views(out@);
                        assert(after =~= before.push((a@, b@)));
                        assert forall|p: int, q: int|
                            0 <= p < after.len() && 0 <= q < after.len() && p != q implies after[p]
                            != after[q] by {
                            if p < before.len() && q < before.len() {
                                assert(before[p] != before[q]);
                            } else if p < before.len() {
                                assert(before.contains(before[p]));
                            } else {
                                assert(before.contains(before[q]));
                            }
                        }
                    }
                }
                proof {
                    let after = pair_views(out@);
                    assert forall|x: Seq<char>, y: Seq<char>|
                        #![trigger after.contains((x, y))]
                        after.contains((x, y)) <==> due(
                            *candidates,
                            fv,
                            i as int,
                            k + 1,
                            x,
                            y,
                        ) by {
                        lemma_step(*candidates, fv, i as int, k as int, x, y);
                        if is_conflict(*candidates, x, y) {
                            lemma_key_at(*candidates, x);
                            lemma_key_at(*candidates, y);
                            if str_le(x, y) && str_le(y, x) {
                                crate::text::lemma_str_le_antisym(x, y);
                            }
                        }
                        if after.contains((x, y)) {
                            let p = choose|p: int| 0 <= p < after.len() && after[p] == (x, y);
                            if p < before.len() {
                                assert(before[p] == (x, y));
                                assert(before.contains((x, y)));
                            } else {
                                assert((x, y) == (a@, b@));
                                assert(fv[k as int].2 == other@);
                                assert(seen(fv, k + 1, other@));
                            }
                        }
                        if due(*candidates, fv, i as int, k + 1, x, y) {
                            if due(*candidates, fv, i as int, k as int, x, y) {
                                assert(before.contains((x, y)));
                                let p = choose|p: int|
                                    0 <= p < before.len() && before[p] == (x, y);
                                assert(after[p] == (x, y));
                            } else {
                                assert((x, y) == (a@, b@));
                                if before.contains((a@, b@)) {
                                    let p = choose|p: int|
                                        0 <= p < before.len() && before[p] == (a@, b@);
                                    assert(after[p] == (x, y));
                                } else {
                                    assert(after[after.len() - 1] == (a@, b@));
                                }
                            }
                        }
                    }
                }
            } else {
                proof {
                    assert forall|x: Seq<char>, y: Seq<char>|
                        #![trigger due(*candidates, fv, i as int, k + 1, x, y)]
                        due(*candidates, fv, i as int, k as int, x, y) == due(
                            *candidates,
                            fv,
                            i as int,
                            k + 1,
                            x,
                            y,
                        ) by {
                        lemma_step(*candidates, fv, i as int, k as int, x, y);
                        if is_conflict(*candidates, x, y) {
                            lemma_key_at(*candidates, x);
                            lemma_key_at(*candidates, y);
                        }
                    }
                }
            }
            k += 1;
        }
        proof {
            assert forall|a: Seq<char>, b: Seq<char>|
                #![trigger due(*candidates, none, i + 1, 0, a, b)]
                due(*candidates, fv, i as int, found.len() as int, a, b) == due(
                    *candidates,
                    none,
                    i + 1,
                    0,
                    a,
                    b,
                ) by {
                if is_conflict(*candidates, a, b) {
                    let ia = candidates.index_of(a);
                    let ib = candidates.index_of(b);
                    if ia == i && !(ib < i) {
                        candidates.lemma_index(ib);
                        let e = entry_at(*candidates, ib);
                        assert(tree_entries(tree).count(e) > 0);
                        assert(fv.contains(e));
                        let q = choose|q: int| 0 <= q < fv.len() && fv[q] == e;
                        assert(fv[q].2 == b);
                        assert(seen(fv, found.len() as int, b));
                    }
                    if ib == i && !(ia < i) {
                        candidates.lemma_index(ia);
                        let e = entry_at(*candidates, ia);
                        assert(tree_entries(tree).count(e) > 0);
                        assert(fv.contains(e));
                        let q = choose|q: int| 0 <= q < fv.len() && fv[q] == e;
                        assert(fv[q].2 == a);
                        assert(seen(fv, found.len() as int, a));
                    }
                }
            }
        }
        i += 1;
    }
    proof {
        assert forall|a: Seq<char>, b: Seq<char>|
            due(*candidates, none, candidates.keys.len() as int, 0, a, b) == is_conflict(
                *candidates,
                a,
                b,
            ) by {
            if is_conflict(*candidates, a, b) {
                assert(0 <= candidates.index_of(a) < candidates.keys.len());
            }
        }
    }
    out
}

/// A key that is present stands at its position.
proof fn lemma_key_at(cands: StrMap<MeetingCandidate>, key: Seq<char>)
    requires
        cands.has(key),
    ensures
        0 <= cands.index_of(key) < cands.keys.len(),
        cands.keys[cands.index_of(key)]@ == key,
{
    let ks = cands.spec_keys();
    let j = ks.index_of(key);
    assert(0 <= j < ks.len() && ks[j] == key);
}

/// What one more neighbour adds to the conflicts that are due: the pair of
/// its key and the key of the candidate at `i`, in order.
proof fn lemma_step(
    cands: StrMap<MeetingCandidate>,
    found: Seq<(int, int, Seq<char>)>,
    i: int,
    k: int,
    a: Seq<char>,
    b: Seq<char>,
)
    requires
        0 <= k < found.len(),
    ensures
        due(cands, found, i, k + 1, a, b) <==> due(cands, found, i, k, a, b) || (is_conflict(
            cands,
            a,
            b,
        ) && ((cands.index_of(a) == i && found[k].2 == b) || (cands.index_of(b) == i && found[k].2
            == a))),
{
    assert forall|key: Seq<char>| seen(found, k + 1, key) <==> seen(found, k, key) || found[k].2
        == key by {
        if seen(found, k + 1, key) {
            let q = choose|q: int| 0 <= q < k + 1 && (#[trigger] found[q]).2 == key;
            if q < k {
                assert(seen(found, k, key));
            }
        }
        if seen(found, k, key) {
            let q = choose|q: int| 0 <= q < k && (#[trigger] found[q]).2 == key;
            assert(0 <= q < k + 1 && found[q].2 == key);
        }
    }
}

} // verus!
