//! The interval index: half-open intervals of UTC seconds with an identifier
//! each, kept in an AVL interval tree and queried for overlaps.

use vstd::multiset::Multiset;
use vstd::prelude::*;

verus! {

/// Trusted: the interval tree of the `bio` crate, opaque to the verifier.
#[verifier::external_type_specification]
#[verifier::external_body]
#[verifier::reject_recursive_types(N)]
#[verifier::reject_recursive_types(D)]
pub struct ExIntervalTree<N: Ord + Clone, D>(bio::data_structures::interval_tree::IntervalTree<N, D>);

/// An index of busy intervals: `[start, end)` in UTC seconds, each with the
/// identifier of the meeting that occupies it.
pub type MeetingsTree = bio::data_structures::interval_tree::IntervalTree<i64, String>;

/// Trusted: what a tree holds, as the multiset of its `(start, end, identifier)`
/// entries. The tree accepts equal intervals and equal identifiers, and keeps
/// each insertion.
pub uninterp spec fn tree_entries(t: MeetingsTree) -> Multiset<(int, int, Seq<char>)>;

/// Whether a stored interval `[s, e)` and a query `[qs, qe)` share time: both
/// are non-empty and each starts before the other ends.
pub open spec fn overlaps(s: int, e: int, qs: int, qe: int) -> bool {
    s < e && qs < qe && s < qe && qs < e
}

/// The entries of a query result as plain values.
pub open spec fn entry_views(r: Seq<(i64, i64, String)>) -> Seq<(int, int, Seq<char>)> {
    r.map_values(|e: (i64, i64, String)| (e.0 as int, e.1 as int, e.2@))
}

/// The entries of a tree that overlap the query `[qs, qe)`.
pub open spec fn overlapping(t: MeetingsTree, qs: int, qe: int) -> Multiset<(int, int, Seq<char>)> {
    tree_entries(t).filter(|e: (int, int, Seq<char>)| overlaps(e.0, e.1, qs, qe))
}

/// An empty index.
///
/// Trusted: stands for `IntervalTree::new`, which makes a tree with no node.
#[verifier::external_body]
pub(crate) fn tree_new() -> (t: MeetingsTree)
    ensures
        tree_entries(t) == Multiset::<(int, int, Seq<char>)>::empty(),
{
    bio::data_structures::interval_tree::IntervalTree::new()
}

/// Adds the interval `[start, end)` with its identifier.
///
/// Trusted: stands for `IntervalTree::insert`, which adds one node for the
/// interval and its data and keeps every node that was there. The conversion
/// of a range into the tree's interval panics when the range ends before it
/// starts, hence the precondition.
#[verifier::external_body]
pub(crate) fn tree_insert(t: &mut MeetingsTree, start: i64, end: i64, id: String)
    requires
        start <= end,
    ensures
        tree_entries(*final(t)) == tree_entries(*old(t)).insert((start as int, end as int, id@)),
{
    t.insert(start..end, id)
}

/// The entries that overlap `[start, end)`, in no stated order.
///
/// Trusted: stands for `IntervalTree::find`, whose iterator yields exactly the
/// nodes whose interval intersects the query: both intervals non-empty, each
/// starting before the other ends. Each entry is handed out as its bounds and
/// a copy of its identifier.
#[verifier::external_body]
pub(crate) fn tree_find(t: &MeetingsTree, start: i64, end: i64) -> (r: Vec<(i64, i64, String)>)
    requires
        start <= end,
    ensures
        entry_views(r@).to_multiset() == overlapping(*t, start as int, end as int),
{
    t.find(start..end).map(|e| (e.interval().start, e.interval().end, e.data().clone())).collect()
}

/// The entries that overlap `[start, end)`, each as often as the tree holds
/// it, in no stated order: each is an entry of the tree that overlaps, and
/// each entry of the tree that overlaps is among them.
pub fn find_overlapping(t: &MeetingsTree, start: i64, end: i64) -> (r: Vec<(i64, i64, String)>)
    requires
        start <= end,
    ensures
        entry_views(r@).to_multiset() == overlapping(*t, start as int, end as int),
        forall|k: int|
            0 <= k < r.len() ==> {
                let e = #[trigger] entry_views(r@)[k];
                tree_entries(*t).count(e) > 0 && overlaps(e.0, e.1, start as int, end as int)
            },
        forall|e: (int, int, Seq<char>)|
            tree_entries(*t).count(e) > 0 && overlaps(e.0, e.1, start as int, end as int)
                ==> entry_views(r@).contains(e),
{
    let r = tree_find(t, start, end);
    proof {
        broadcast use vstd::multiset::group_multiset_axioms;

        let rv = entry_views(r@);
        let f = |e: (int, int, Seq<char>)| overlaps(e.0, e.1, start as int, end as int);
        assert(rv.to_multiset() == tree_entries(*t).filter(f));
        assert forall|k: int| 0 <= k < r.len() implies {
            let e = #[trigger] rv[k];
            tree_entries(*t).count(e) > 0 && overlaps(e.0, e.1, start as int, end as int)
        } by {
            let e = rv[k];
            vstd::seq_lib::to_multiset_contains(rv, e);
            assert(rv.contains(e));
            assert(rv.to_multiset().count(e) > 0);
            assert(tree_entries(*t).filter(f).count(e) == if f(e) {
                tree_entries(*t).count(e)
            } else {
                0
            });
        }
        assert forall|e: (int, int, Seq<char>)|
            tree_entries(*t).count(e) > 0 && overlaps(
                e.0,
                e.1,
                start as int,
                end as int,
            ) implies rv.contains(e) by {
            assert(f(e));
            assert(tree_entries(*t).filter(f).count(e) == tree_entries(*t).count(e));
            vstd::seq_lib::to_multiset_contains(rv, e);
        }
    }
    r
}

/// The number of entries of a tree that overlap the query `[qs, qe)`.
pub open spec fn busy(t: MeetingsTree, qs: int, qe: int) -> nat {
    overlapping(t, qs, qe).len()
}

/// The number of entries that overlap `[start, end)`.
pub fn count_overlaps(t: &MeetingsTree, start: i64, end: i64) -> (n: usize)
    requires
        start <= end,
    ensures
        n == busy(*t, start as int, end as int),
{
    let r = tree_find(t, start, end);
    proof {
        vstd::seq_lib::to_multiset_len(entry_views(r@));
    }
    r.len()
}

} // verus!
