//! The encoder: the optimisation problem as text in LP format, the same
//! text for the same problem.

use crate::conflict::pair_views;
use crate::solver::SolverInput;
use crate::strmap::StrMap;
use crate::text::{decimal, join, join_strings, le_fn, push_decimal, sort_strings, views};
use crate::types::MeetingCandidate;
use vstd::prelude::*;

verus! {

/// A term of the objective: the score, a space, the variable.
pub open spec fn term(score: nat, id: Seq<char>) -> Seq<char> {
    decimal(score) + " "@ + id
}

/// The terms of the objective for the variables in the given order.
pub open spec fn terms(cands: StrMap<MeetingCandidate>, ids: Seq<Seq<char>>) -> Seq<Seq<char>> {
    ids.map_values(|id: Seq<char>| term(cands.value(id).score as nat, id))
}

/// The constraint that exactly one of a meeting's candidates is chosen: the
/// variables in lexicographic order with plus signs between, equal to 1.
pub open spec fn meeting_line(ids: Seq<Seq<char>>) -> Seq<char> {
    "  "@ + join(ids.sort_by(le_fn()), " + "@) + " = 1"@
}

/// The constraint that at most one candidate of a conflict is chosen.
pub open spec fn conflict_line(a: Seq<char>, b: Seq<char>) -> Seq<char> {
    "  "@ + a + " + "@ + b + " <= 1"@
}

/// The meeting constraints, one for each title, in lexicographic order.
pub open spec fn meeting_lines(per: StrMap<Vec<String>>) -> Seq<Seq<char>> {
    per.vals@.map_values(|l: Vec<String>| meeting_line(views(l@))).sort_by(le_fn())
}

/// The conflict constraints, one for each conflict, in lexicographic order.
pub open spec fn conflict_lines(pairs: Seq<(String, String)>) -> Seq<Seq<char>> {
    pair_views(pairs).map_values(|p: (Seq<char>, Seq<char>)| conflict_line(p.0, p.1)).sort_by(
        le_fn(),
    )
}

/// The variables of the problem: the candidates' keys in lexicographic order.
pub open spec fn variables(cands: StrMap<MeetingCandidate>) -> Seq<Seq<char>> {
    cands.spec_keys().sort_by(le_fn())
}

/// The problem in LP format: maximise the sum of the scores of the chosen
/// candidates, with one candidate for each meeting and at most one of each
/// conflict, over binary variables.
pub open spec fn lp_text(s: SolverInput) -> Seq<char> {
    "Maximize\n  obj: "@ + join(terms(s.candidates, variables(s.candidates)), " + "@)
        + "\nSubject To\n"@ + join(
        meeting_lines(s.candidate_per_desired_meeting) + conflict_lines(s.intersections@),
        "\n"@,
    ) + "\nBinary\n  "@ + join(variables(s.candidates), " "@) + "\nEnd"@
}

/// The texts of two lists, one after the other.
fn concat_lists(a: Vec<String>, b: Vec<String>) -> (r: Vec<String>)
    ensures
        views(r@) == views(a@) + views(b@),
{
    let mut out = a;
    let mut rest = b;
    out.append(&mut rest);
    assert(views(out@) =~= views(a@) + views(b@));
    out
}

impl SolverInput {
    /// The terms of the objective, in the order of the sorted keys.
    fn objective_terms(&self, ids: &Vec<String>) -> (r: Vec<String>)
        requires
            self.wf(),
            views(ids@) == variables(self.candidates),
        ensures
            views(r@) == terms(self.candidates, variables(self.candidates)),
    {
        let mut out: Vec<String> = Vec::new();
        let mut i: usize = 0;
        let ghost want = terms(self.candidates, variables(self.candidates));
        proof {
            crate::text::lemma_str_le_total_ordering();
            self.candidates.spec_keys().lemma_sort_by_ensures(le_fn());
        }
        while i < ids.len()
            invariant
                i <= ids.len(),
                self.wf(),
                views(ids@) == variables(self.candidates),
                want == terms(self.candidates, variables(self.candidates)),
                self.candidates.spec_keys().to_multiset() =~= variables(
                    self.candidates,
                ).to_multiset(),
                views(out@) == want.take(i as int),
            decreases ids.len() - i,
        {
            let id = &ids[i];
            proof {
                let vars = variables(self.candidates);
                assert(vars[i as int] == id@);
                vstd::seq_lib::to_multiset_contains(vars, id@);
                vstd::seq_lib::to_multiset_contains(self.candidates.spec_keys(), id@);
                assert(vars.contains(id@));
                assert(self.candidates.has(id@));
            }
            let score = match self.candidates.get(id.as_str()) {
                Some(c) => c.score,
                None => 0,
            };
            let mut t = String::new();
            push_decimal(&mut t, score);
            t.append(" ");
            t.append(id.as_str());
            proof {
                assert(t@ =~= term(score as nat, id@));
                assert(want.take(i + 1) =~= want.take(i as int).push(t@));
            }
            out.push(t);
            assert(views(out@) =~= want.take(i + 1));
            i += 1;
        }
        assert(want.take(ids.len() as int) =~= want);
        out
    }

    /// The meeting constraints, in lexicographic order.
    fn meeting_constraints(&self) -> (r: Vec<String>)
        requires
            self.wf(),
        ensures
            views(r@) == meeting_lines(self.candidate_per_desired_meeting),
    {
        let per = &self.candidate_per_desired_meeting;
        let mut out: Vec<String> = Vec::new();
        let mut i: usize = 0;
        let ghost want = per.vals@.map_values(|l: Vec<String>| meeting_line(views(l@)));
        while i < per.vals.len()
            invariant
                i <= per.vals.len(),
                per == &self.candidate_per_desired_meeting,
                want == per.vals@.map_values(|l: Vec<String>| meeting_line(views(l@))),
                views(out@) == want.take(i as int),
            decreases per.vals.len() - i,
        {
            let sorted = sort_strings(&per.vals[i]);
            let mut line = String::new();
            line.append("  ");
            line.append(join_strings(&sorted, " + ").as_str());
            line.append(" = 1");
            proof {
                assert(line@ =~= meeting_line(views(per.vals[i as int]@)));
                assert(want.take(i + 1) =~= want.take(i as int).push(line@));
            }
            out.push(line);
            assert(views(out@) =~= want.take(i + 1));
            i += 1;
        }
        assert(want.take(per.vals.len() as int) =~= want);
        sort_strings(&out)
    }

    /// The conflict constraints, in lexicographic order.
    fn conflict_constraints(&self) -> (r: Vec<String>)
        ensures
            views(r@) == conflict_lines(self.intersections@),
    {
        let pairs = &self.intersections;
        let mut out: Vec<String> = Vec::new();
        let mut i: usize = 0;
        let ghost want = pair_views(pairs@).map_values(
            |p: (Seq<char>, Seq<char>)| conflict_line(p.0, p.1),
        );
        while i < pairs.len()
            invariant
                i <= pairs.len(),
                pairs == &self.intersections,
                want == pair_views(pairs@).map_values(
                    |p: (Seq<char>, Seq<char>)| conflict_line(p.0, p.1),
                ),
                views(out@) == want.take(i as int),
            decreases pairs.len() - i,
        {
            let mut line = String::new();
            line.append("  ");
            line.append(pairs[i].0.as_str());
            line.append(" + ");
            line.append(pairs[i].1.as_str());
            line.append(" <= 1");
            proof {
                assert(line@ =~= conflict_line(pairs[i as int].0@, pairs[i as int].1@));
                assert(want.take(i + 1) =~= want.take(i as int).push(line@));
            }
            out.push(line);
            assert(views(out@) =~= want.take(i + 1));
            i += 1;
        }
        assert(want.take(pairs.len() as int) =~= want);
        sort_strings(&out)
    }

    /// The problem as text in LP format.
    pub fn to_lp_fmt(&self) -> (r: String)
        requires
            self.wf(),
        ensures
            r@ == lp_text(*self),
    {
        let ids = sort_strings(&self.candidates.keys);
        let objective = self.objective_terms(&ids);
        let constraints = concat_lists(self.meeting_constraints(), self.conflict_constraints());
        let mut out = String::new();
        out.append("Maximize\n  obj: ");
        out.append(join_strings(&objective, " + ").as_str());
        out.append("\nSubject To\n");
        out.append(join_strings(&constraints, "\n").as_str());
        out.append("\nBinary\n  ");
        out.append(join_strings(&ids, " ").as_str());
        out.append("\nEnd");
        assert(out@ =~= lp_text(*self));
        out
    }
}

} // verus!
