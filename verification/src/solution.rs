//! The decoder: what the solver answered, read back as an assignment of
//! candidates to desired meetings.

use crate::solver::SolverInput;
use crate::strmap::{str_same, StrMap};
use crate::text::{
    char_views, chars_eq, chars_of, contains_chars, contains_text, lines, split_lines,
    split_words, string_of, words,
};
use crate::types::{
    desired_views, Assignment, CandidateView, DesiredMeeting, DesiredView, MeetingCandidate,
};
use vstd::prelude::*;

verus! {

/// An assignment as plain values: the titles in the order in which they were
/// first assigned, and for each the desired meeting and its candidate.
pub struct AssignView {
    pub keys: Seq<Seq<char>>,
    pub vals: Seq<(DesiredView, CandidateView)>,
}

/// The plain values of an assignment.
pub open spec fn assignment_view(a: Assignment) -> AssignView {
    AssignView {
        keys: a.spec_keys(),
        vals: a.vals@.map_values(|p: (DesiredMeeting, MeetingCandidate)| (p.0@, p.1@)),
    }
}

/// The plain values of an optional assignment.
pub open spec fn opt_assignment_view(a: Option<Assignment>) -> Option<AssignView> {
    match a {
        Some(x) => Some(assignment_view(x)),
        None => None,
    }
}

/// An assignment with a pair put under a title: in place of the pair that
/// the title had, or after the others.
pub open spec fn put(a: AssignView, title: Seq<char>, pair: (DesiredView, CandidateView)) -> AssignView {
    if a.keys.contains(title) {
        AssignView { keys: a.keys, vals: a.vals.update(a.keys.index_of(title), pair) }
    } else {
        AssignView { keys: a.keys.push(title), vals: a.vals.push(pair) }
    }
}

/// The position of the first meeting from `from` on with the title.
pub open spec fn first_titled(ms: Seq<DesiredView>, title: Seq<char>, from: int) -> Option<int>
    decreases ms.len() - from,
{
    if from < 0 || from >= ms.len() {
        None
    } else if ms[from].title == title {
        Some(from)
    } else {
        first_titled(ms, title, from + 1)
    }
}

/// What a row of the answer does to the assignment. A row without a word is
/// passed over. A row names a variable in its second word and the variable's
/// value in its third: a row with fewer words spoils the answer; a value
/// other than `1` changes nothing; with `1`, the candidate under the variable
/// goes to the first desired meeting with its title, and the answer is spoilt
/// where there is no such candidate or no such meeting.
pub open spec fn apply_row(input: SolverInput, a: AssignView, row: Seq<char>) -> Option<AssignView> {
    let w = words(row);
    if w.len() == 0 {
        Some(a)
    } else if w.len() < 3 {
        None
    } else if w[2] != "1"@ {
        Some(a)
    } else if !input.candidates.has(w[1]) {
        None
    } else {
        let c = input.candidates.value(w[1]);
        let ms = desired_views(input.desired_meetings@);
        match first_titled(ms, c.title@, 0) {
            None => None,
            Some(j) => Some(put(a, ms[j].title, (ms[j], c@))),
        }
    }
}

/// The assignment after the rows from position `i` on, each applied in turn
/// to what the rows before it gave.
pub open spec fn decode_from(
    input: SolverInput,
    rows: Seq<Seq<char>>,
    i: int,
    a: AssignView,
) -> Option<AssignView>
    decreases rows.len() - i,
{
    if i < 0 || i >= rows.len() {
        Some(a)
    } else {
        match apply_row(input, a, rows[i]) {
            None => None,
            Some(next) => decode_from(input, rows, i + 1, next),
        }
    }
}

/// The assignment that an answer gives: none unless its first line holds the
/// word `Optimal`; else what the rows after the first line give.
pub open spec fn spec_decode(text: Seq<char>, input: SolverInput) -> Option<AssignView> {
    let ls = lines(text);
    if !contains_text(ls[0], "Optimal"@) {
        None
    } else {
        decode_from(input, ls, 1, AssignView { keys: Seq::empty(), vals: Seq::empty() })
    }
}

/// The first desired meeting with the title.
fn find_titled(ms: &Vec<DesiredMeeting>, title: &str) -> (r: Option<usize>)
    ensures
        match r {
            Some(j) => j < ms.len() && first_titled(desired_views(ms@), title@, 0) == Some(
                j as int,
            ),
            None => first_titled(desired_views(ms@), title@, 0) is None,
        },
{
    let mut j: usize = 0;
    let ghost views = desired_views(ms@);
    while j < ms.len()
        invariant
            j <= ms.len(),
            views == desired_views(ms@),
            first_titled(views, title@, 0) == first_titled(views, title@, j as int),
        decreases ms.len() - j,
    {
        assert(views[j as int] == ms[j as int]@);
        if str_same(ms[j].title.as_str(), title) {
            return Some(j);
        }
        j += 1;
    }
    None
}

/// The assignment that the solver's answer gives for a problem: none unless
/// the answer's first line holds the word `Optimal`; else, for each row that
/// gives a variable the value `1`, the variable's candidate under the first
/// desired meeting with the candidate's title. An answer with a row that
/// cannot be read, or with a variable that the problem does not know, gives
/// none.
pub fn read_cbc_solver_solution(solution: &str, solver_input: &SolverInput) -> (r: Option<
    Assignment,
>)
    requires
        solver_input.wf(),
    ensures
        opt_assignment_view(r) == spec_decode(solution@, *solver_input),
        r matches Some(a) ==> a.wf(),
{
    let chars = chars_of(solution);
    let rows = split_lines(&chars);
    let optimal = chars_of("Optimal");
    let one = chars_of("1");
    let ghost ls = lines(solution@);
    assert(rows[0]@ == ls[0]);
    assert(rows[0]@.subrange(0, rows[0].len() as int) =~= rows[0]@);
    if !contains_chars(&rows[0], 0, rows[0].len(), &optimal) {
        return None;
    }
    let mut res: Assignment = StrMap::new();
    let ghost empty = AssignView { keys: Seq::empty(), vals: Seq::empty() };
    assert(assignment_view(res).keys =~= empty.keys && assignment_view(res).vals =~= empty.vals);
    let mut i: usize = 1;
    while i < rows.len()
        invariant
            1 <= i <= rows.len(),
            solver_input.wf(),
            res.wf(),
            ls == char_views(rows@),
            one@ == "1"@,
            spec_decode(solution@, *solver_input) == decode_from(
                *solver_input,
                ls,
                i as int,
                assignment_view(res),
            ),
        decreases rows.len() - i,
    {
        let ghost a = assignment_view(res);
        assert(ls[i as int] == rows[i as int]@);
        let w = split_words(&rows[i]);
        let ghost wv = words(ls[i as int]);
        if w.len() != 0 {
            if w.len() < 3 {
                return None;
            }
            assert(wv[2] == w[2]@ && wv[1] == w[1]@);
            if chars_eq(&w[2], &one) {
                let ident = string_of(&w[1], 0, w[1].len());
                assert(ident@ =~= wv[1]);
                let candidate = match solver_input.candidates.get(ident.as_str()) {
                    Some(c) => c,
                    None => {
                        return None;
                    },
                };
                let j = match find_titled(
                    &solver_input.desired_meetings,
                    candidate.title.as_str(),
                ) {
                    Some(j) => j,
                    None => {
                        return None;
                    },
                };
                let meeting = &solver_input.desired_meetings[j];
                let ghost ms = desired_views(solver_input.desired_meetings@);
                assert(ms[j as int] == meeting@);
                let ghost pair = (meeting@, candidate@);
                let ghost had = res.has(meeting.title@);
                let ghost at = res.index_of(meeting.title@);
                let ghost old_vals = a.vals;
                res.insert(meeting.title.clone(), (meeting.clone(), candidate.clone()));
                proof {
                    let b = assignment_view(res);
                    let want = put(a, meeting.title@, pair);
                    if had {
                        assert(b.vals =~= old_vals.update(at, pair));
                    } else {
                        assert(b.vals =~= old_vals.push(pair));
                    }
                    assert(b.keys == want.keys && b.vals == want.vals);
                    assert(apply_row(*solver_input, a, ls[i as int]) == Some(b));
                }
            }
        }
        i += 1;
    }
    Some(res)
}

} // verus!
