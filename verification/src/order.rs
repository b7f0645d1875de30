//! The text of a problem does not depend on the order in which the problem
//! was put together.

use crate::conflict::pair_views;
use crate::lp::{
    conflict_line, conflict_lines, lp_text, meeting_line, meeting_lines, terms, variables,
};
use crate::solver::SolverInput;
use crate::strmap::StrMap;
use crate::text::{le_fn, lemma_str_le_total_ordering, views};
use crate::types::MeetingCandidate;
use vstd::prelude::*;
use vstd::seq_lib::{lemma_sorted_unique, to_multiset_build, to_multiset_contains, to_multiset_insert, to_multiset_remove};

verus! {

/// Two sequences without duplicates that hold the same elements hold them as
/// often.
pub proof fn lemma_same_elements<A>(x: Seq<A>, y: Seq<A>)
    requires
        x.no_duplicates(),
        y.no_duplicates(),
        forall|v: A| x.contains(v) <==> y.contains(v),
    ensures
        x.to_multiset() == y.to_multiset(),
{
    broadcast use vstd::multiset::group_multiset_axioms;

    x.lemma_multiset_has_no_duplicates();
    y.lemma_multiset_has_no_duplicates();
    assert forall|v: A| x.to_multiset().count(v) == y.to_multiset().count(v) by {
        to_multiset_contains(x, v);
        to_multiset_contains(y, v);
        assert(x.contains(v) <==> y.contains(v));
    }
    assert(x.to_multiset() =~= y.to_multiset());
}

/// Sequences that hold the same elements as often still do so when a
/// function is applied to each element.
pub proof fn lemma_map_keeps_multiset<A, B>(x: Seq<A>, y: Seq<A>, f: spec_fn(A) -> B)
    requires
        x.to_multiset() == y.to_multiset(),
    ensures
        x.map_values(f).to_multiset() == y.map_values(f).to_multiset(),
    decreases x.len(),
{
    broadcast use vstd::multiset::group_multiset_axioms;

    vstd::seq_lib::to_multiset_len(x);
    vstd::seq_lib::to_multiset_len(y);
    if x.len() == 0 {
        assert(x.map_values(f) =~= y.map_values(f));
    } else {
        let e = x.last();
        let x0 = x.drop_last();
        assert(x =~= x0.push(e));
        to_multiset_build(x0, e);
        to_multiset_contains(x, e);
        to_multiset_contains(y, e);
        assert(x.contains(e));
        assert(y.contains(e));
        let j = choose|j: int| 0 <= j < y.len() && y[j] == e;
        let y0 = y.remove(j);
        to_multiset_remove(y, j);
        assert(x0.to_multiset() =~= x.to_multiset().remove(e));
        assert(x0.to_multiset() == y0.to_multiset());
        lemma_map_keeps_multiset(x0, y0, f);
        assert(x.map_values(f) =~= x0.map_values(f).push(f(e)));
        to_multiset_build(x0.map_values(f), f(e));
        assert(y.map_values(f) =~= y0.map_values(f).insert(j, f(e)));
        to_multiset_insert(y0.map_values(f), j, f(e));
    }
}

/// Sequences of texts that hold the same texts as often are the same once
/// sorted.
pub proof fn lemma_sort_ignores_order(x: Seq<Seq<char>>, y: Seq<Seq<char>>)
    requires
        x.to_multiset() == y.to_multiset(),
    ensures
        x.sort_by(le_fn()) == y.sort_by(le_fn()),
{
    lemma_str_le_total_ordering();
    x.lemma_sort_by_ensures(le_fn());
    y.lemma_sort_by_ensures(le_fn());
    lemma_sorted_unique(x.sort_by(le_fn()), y.sort_by(le_fn()), le_fn());
}

/// Whether two maps of candidates have the same keys, and under each key
/// candidates with the same score.
pub open spec fn same_scores(a: StrMap<MeetingCandidate>, b: StrMap<MeetingCandidate>) -> bool {
    forall|k: Seq<char>|
        #![trigger a.has(k)]
        #![trigger b.has(k)]
        (a.has(k) <==> b.has(k)) && (a.has(k) ==> a.value(k).score == b.value(k).score)
}

/// Whether two maps of lists have the same titles, and under each title the
/// same identifiers as often.
pub open spec fn same_lists(a: StrMap<Vec<String>>, b: StrMap<Vec<String>>) -> bool {
    forall|t: Seq<char>|
        #![trigger a.has(t)]
        #![trigger b.has(t)]
        (a.has(t) <==> b.has(t)) && (a.has(t) ==> views(a.value(t)@).to_multiset() == views(
            b.value(t)@,
        ).to_multiset())
}

/// Whether two lists of conflicts hold the same pairs, each once.
pub open spec fn same_pairs(a: Seq<(String, String)>, b: Seq<(String, String)>) -> bool {
    &&& pair_views(a).no_duplicates()
    &&& pair_views(b).no_duplicates()
    &&& forall|p: (Seq<char>, Seq<char>)| pair_views(a).contains(p) <==> pair_views(b).contains(p)
}

/// Whether two problems hold the same: the same candidates with the same
/// scores, the same identifiers under the same titles, and the same
/// conflicts, in whatever order.
pub open spec fn same_problem(a: SolverInput, b: SolverInput) -> bool {
    &&& a.wf() && b.wf()
    &&& same_scores(a.candidates, b.candidates)
    &&& same_lists(a.candidate_per_desired_meeting, b.candidate_per_desired_meeting)
    &&& same_pairs(a.intersections@, b.intersections@)
}

/// The keys of a well-formed map are all different.
proof fn lemma_keys_distinct<V>(m: StrMap<V>)
    requires
        m.wf(),
    ensures
        m.spec_keys().no_duplicates(),
{
    let ks = m.spec_keys();
    assert forall|i: int, j: int| 0 <= i < ks.len() && 0 <= j < ks.len() && i != j implies ks[i]
        != ks[j] by {
        if i < j {
            assert(m.keys[i]@ != m.keys[j]@);
        } else {
            assert(m.keys[j]@ != m.keys[i]@);
        }
    }
}

/// The variables of two problems that hold the same are the same.
proof fn lemma_variables(a: StrMap<MeetingCandidate>, b: StrMap<MeetingCandidate>)
    requires
        a.wf(),
        b.wf(),
        same_scores(a, b),
    ensures
        variables(a) == variables(b),
        terms(a, variables(a)) == terms(b, variables(b)),
{
    lemma_keys_distinct(a);
    lemma_keys_distinct(b);
    assert forall|k: Seq<char>| a.spec_keys().contains(k) <==> b.spec_keys().contains(k) by {
        assert(a.has(k) <==> b.has(k));
    }
    lemma_same_elements(a.spec_keys(), b.spec_keys());
    lemma_sort_ignores_order(a.spec_keys(), b.spec_keys());
    let vars = variables(a);
    lemma_str_le_total_ordering();
    a.spec_keys().lemma_sort_by_ensures(le_fn());
    assert forall|i: int| 0 <= i < vars.len() implies terms(a, vars)[i] == terms(b, vars)[i] by {
        to_multiset_contains(vars, vars[i]);
        to_multiset_contains(a.spec_keys(), vars[i]);
        assert(vars.contains(vars[i]));
        assert(a.has(vars[i]));
    }
    assert(terms(a, vars) =~= terms(b, vars));
}

/// The title and the constraint of each entry of a map of lists.
pub open spec fn titled_lines(m: StrMap<Vec<String>>) -> Seq<(Seq<char>, Seq<char>)> {
    Seq::new(m.keys.len() as nat, |i: int| (m.keys[i]@, meeting_line(views(m.vals[i]@))))
}

/// The meeting constraints of two problems that hold the same are the same.
proof fn lemma_meeting_lines(a: StrMap<Vec<String>>, b: StrMap<Vec<String>>)
    requires
        a.wf(),
        b.wf(),
        same_lists(a, b),
    ensures
        meeting_lines(a) == meeting_lines(b),
{
    let pa = titled_lines(a);
    let pb = titled_lines(b);
    lemma_titled(a, b);
    lemma_titled(b, a);
    assert forall|i: int, j: int| 0 <= i < pa.len() && 0 <= j < pa.len() && i != j implies pa[i]
        != pa[j] by {
        if i < j {
            assert(a.keys[i]@ != a.keys[j]@);
        } else {
            assert(a.keys[j]@ != a.keys[i]@);
        }
    }
    assert forall|i: int, j: int| 0 <= i < pb.len() && 0 <= j < pb.len() && i != j implies pb[i]
        != pb[j] by {
        if i < j {
            assert(b.keys[i]@ != b.keys[j]@);
        } else {
            assert(b.keys[j]@ != b.keys[i]@);
        }
    }
    lemma_same_elements(pa, pb);
    let second = |p: (Seq<char>, Seq<char>)| p.1;
    lemma_map_keeps_multiset(pa, pb, second);
    let la = a.vals@.map_values(|l: Vec<String>| meeting_line(views(l@)));
    let lb = b.vals@.map_values(|l: Vec<String>| meeting_line(views(l@)));
    assert(pa.map_values(second) =~= la);
    assert(pb.map_values(second) =~= lb);
    lemma_sort_ignores_order(la, lb);
}

/// Each titled constraint of one map is a titled constraint of the other.
proof fn lemma_titled(a: StrMap<Vec<String>>, b: StrMap<Vec<String>>)
    requires
        a.wf(),
        b.wf(),
        same_lists(a, b),
    ensures
        forall|p: (Seq<char>, Seq<char>)|
            titled_lines(a).contains(p) ==> titled_lines(b).contains(p),
{
    let pa = titled_lines(a);
    let pb = titled_lines(b);
    assert forall|p: (Seq<char>, Seq<char>)| pa.contains(p) implies pb.contains(p) by {
        let i = choose|i: int| 0 <= i < pa.len() && pa[i] == p;
        a.lemma_index(i);
        let t = a.keys[i]@;
        assert(a.has(t) && b.has(t));
        let j = b.index_of(t);
        assert(0 <= j < b.spec_keys().len() && b.spec_keys()[j] == t);
        b.lemma_index(j);
        lemma_sort_ignores_order(views(a.vals[i]@), views(b.vals[j]@));
        assert(pb[j] == p);
    }
}

/// The conflict constraints of two problems that hold the same are the same.
proof fn lemma_conflict_lines(a: Seq<(String, String)>, b: Seq<(String, String)>)
    requires
        same_pairs(a, b),
    ensures
        conflict_lines(a) == conflict_lines(b),
{
    lemma_same_elements(pair_views(a), pair_views(b));
    let line = |p: (Seq<char>, Seq<char>)| conflict_line(p.0, p.1);
    lemma_map_keeps_multiset(pair_views(a), pair_views(b), line);
    lemma_sort_ignores_order(pair_views(a).map_values(line), pair_views(b).map_values(line));
}

/// Two problems that hold the same have the same text, in whatever order
/// their candidates, lists and conflicts were put in.
pub proof fn law_encoding_ignores_order(a: SolverInput, b: SolverInput)
    requires
        same_problem(a, b),
    ensures
        lp_text(a) == lp_text(b),
{
    lemma_variables(a.candidates, b.candidates);
    lemma_meeting_lines(a.candidate_per_desired_meeting, b.candidate_per_desired_meeting);
    lemma_conflict_lines(a.intersections@, b.intersections@);
}

} // verus!
