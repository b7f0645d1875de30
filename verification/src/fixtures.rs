//! Sample documents and values: a list of desired meetings as the user
//! writes it, a configuration, calendars, candidates and a solver's answer.

use crate::candidate::all_known;
use crate::input::{
    all_stand_for, desired_meetings_from_input, first_bad, slugs_distinct, stands_for,
    titles_distinct, InputDesiredMeeting, InputError,
};
use crate::strmap::{str_same, StrMap};
use crate::text::views;
use crate::time::{now_utc, parse_rfc3339, rfc3339_instant};
use crate::tree::{tree_entries, tree_insert, tree_new, MeetingsTree};
use crate::types::{lemma_slug_of_plain, opt_view, Availability, DesiredMeeting, MeetingCandidate};
use vstd::multiset::Multiset;
use vstd::prelude::*;

verus! {

/// Two desired meetings with different titles, as a YAML document.
pub fn test_input() -> (s: String)
    ensures
        s@ == "- title: title
  description: description
  attendees:
  - laurent.charignon@foo.com
  - foo.bar@laurent.com
  min_date: 2018-02-08T10:00:00
  max_date: 2018-02-20T18:00:00
- title: title2
  description: description 2
  attendees:
  - laurent.charignon@foo.com
  - contact@laurent.com
  min_date: 2018-02-08T11:00:00
  max_date: 2018-02-10T16:00:00
"@,
{
    "- title: title
  description: description
  attendees:
  - laurent.charignon@foo.com
  - foo.bar@laurent.com
  min_date: 2018-02-08T10:00:00
  max_date: 2018-02-20T18:00:00
- title: title2
  description: description 2
  attendees:
  - laurent.charignon@foo.com
  - contact@laurent.com
  min_date: 2018-02-08T11:00:00
  max_date: 2018-02-10T16:00:00
".to_owned()
}

/// Two desired meetings with the same title, as a YAML document.
pub fn test_invalid_input() -> (s: String)
    ensures
        s@ == "- title: title
  description: description
  attendees:
  - laurent.charignon@foo.com
  - foo.bar@laurent.com
  min_date: 2018-02-08T10:00:00
  max_date: 2018-02-20T18:00:00
- title: title
  description: description 2
  attendees:
  - laurent.charignon@foo.com
  - contact@laurent.com
  min_date: 2018-02-08T11:00:00
  max_date: 2018-02-10T16:00:00
"@,
{
    "- title: title
  description: description
  attendees:
  - laurent.charignon@foo.com
  - foo.bar@laurent.com
  min_date: 2018-02-08T10:00:00
  max_date: 2018-02-20T18:00:00
- title: title
  description: description 2
  attendees:
  - laurent.charignon@foo.com
  - contact@laurent.com
  min_date: 2018-02-08T11:00:00
  max_date: 2018-02-10T16:00:00
".to_owned()
}

/// A configuration with two small rooms and a large one, as a YAML document.
pub fn test_config() -> (s: String)
    ensures
        s@ == "
small_rooms:
  - foo@bar.com
  - joe@baz.com
large_rooms:
  - bozorg@jam.com
"@,
{
    "
small_rooms:
  - foo@bar.com
  - joe@baz.com
large_rooms:
  - bozorg@jam.com
".to_owned()
}

/// A solver's answer that chooses two candidates.
pub fn sample_cbc_solution() -> (s: String)
    ensures
        s@ == "Optimal - objective value -2422.00000000
   3576 id10873                 1                   -1161
  18404 id0                     1                   -1261"@,
{
    "Optimal - objective value -2422.00000000
   3576 id10873                 1                   -1161
  18404 id0                     1                   -1261".to_owned()
}

/// The person who is busy in the sample calendars.
pub open spec fn busy_person() -> Seq<char> {
    "laurent.charignon@foo.com"@
}

/// What the sample calendar of an identity holds: for the busy person one
/// meeting of three quarters of an hour, for anyone else nothing.
pub open spec fn sample_entries(who: Seq<char>) -> Multiset<(int, int, Seq<char>)> {
    if who == busy_person() {
        match (
            rfc3339_instant("2018-02-08T14:00:00-08:00"@),
            rfc3339_instant("2018-02-08T14:45:00-08:00"@),
        ) {
            (Some(from), Some(to)) => if from <= to {
                Multiset::empty().insert((from, to, "meeting"@))
            } else {
                Multiset::empty()
            },
            _ => Multiset::empty(),
        }
    } else {
        Multiset::empty()
    }
}

/// The sample calendar of an identity.
fn sample_tree(who: &str) -> (t: MeetingsTree)
    ensures
        tree_entries(t) == sample_entries(who@),
{
    let mut t = tree_new();
    if str_same(who, "laurent.charignon@foo.com") {
        let from = parse_rfc3339("2018-02-08T14:00:00-08:00");
        let to = parse_rfc3339("2018-02-08T14:45:00-08:00");
        match (from, to) {
            (Some(from), Some(to)) => {
                if from <= to {
                    tree_insert(&mut t, from, to, "meeting".to_owned());
                }
            },
            _ => {},
        }
    }
    t
}

/// Sample calendars for the identities: one meeting for one of them, on
/// 8 February 2018 from 14:00 to 14:45 at eight hours behind UTC, and
/// nothing for the others.
pub fn fetch_results(emails: Vec<String>) -> (r: Availability)
    ensures
        r.wf(),
        all_known(r, views(emails@)),
        forall|who: Seq<char>| #[trigger]
            r.has(who) ==> tree_entries(r.value(who)) == sample_entries(who),
{
    let mut l: Availability = StrMap::new();
    let mut i: usize = 0;
    while i < emails.len()
        invariant
            i <= emails.len(),
            l.wf(),
            all_known(l, views(emails@).take(i as int)),
            forall|who: Seq<char>| #[trigger]
                l.has(who) ==> tree_entries(l.value(who)) == sample_entries(who),
        decreases emails.len() - i,
    {
        let ghost before = l;
        let ghost done = views(emails@).take(i as int);
        let k = sample_tree(emails[i].as_str());
        l.insert(emails[i].clone(), k);
        proof {
            let next = views(emails@).take(i + 1);
            assert forall|j: int| 0 <= j < next.len() implies l.has(#[trigger] next[j]) by {
                if j < i {
                    assert(before.has(done[j]));
                }
            }
            assert forall|who: Seq<char>| #[trigger] l.has(who) implies tree_entries(
                l.value(who),
            ) == sample_entries(who) by {
                if who != emails[i as int]@ {
                    assert(before.has(who));
                }
            }
        }
        i += 1;
    }
    assert(views(emails@).take(emails.len() as int) =~= views(emails@));
    l
}

/// The written form of a sample meeting.
fn sample_written(
    title: &str,
    description: &str,
    first: &str,
    second: &str,
    min_date: i64,
    max_date: i64,
) -> (r: InputDesiredMeeting)
    ensures
        r.title@ == title@,
        r.description@ == description@,
        views(r.attendees@) == seq![first@, second@],
        r.min_date == min_date,
        r.max_date == max_date,
        r.step is None,
        r.duration is None,
        r.timezone is None,
{
    let mut attendees: Vec<String> = Vec::new();
    attendees.push(first.to_owned());
    attendees.push(second.to_owned());
    assert(views(attendees@) =~= seq![first@, second@]);
    InputDesiredMeeting {
        title: title.to_owned(),
        description: description.to_owned(),
        attendees,
        min_date,
        max_date,
        step: None,
        duration: None,
        timezone: None,
    }
}

/// Whether a list is that of the two meetings of the sample document, as
/// they are written: the first from 8 February 2018 at 10:00 to 20 February
/// at 18:00, the second from 8 February at 11:00 to 10 February at 16:00, on
/// the wall clock; neither names a step, a duration or a zone.
pub open spec fn is_sample_written(r: Seq<InputDesiredMeeting>) -> bool {
    &&& r.len() == 2
    &&& r[0].title@ == "title"@
    &&& r[0].description@ == "description"@
    &&& views(r[0].attendees@) == seq!["laurent.charignon@foo.com"@, "foo.bar@laurent.com"@]
    &&& r[0].min_date == 1_518_084_000
    &&& r[0].max_date == 1_519_149_600
    &&& r[1].title@ == "title2"@
    &&& r[1].description@ == "description 2"@
    &&& views(r[1].attendees@) == seq!["laurent.charignon@foo.com"@, "contact@laurent.com"@]
    &&& r[1].min_date == 1_518_087_600
    &&& r[1].max_date == 1_518_278_400
    &&& forall|k: int|
        0 <= k < 2 ==> (#[trigger] r[k]).step is None && r[k].duration is None
            && r[k].timezone is None
}

/// The two meetings of the sample document, as they are written.
pub fn test_written_meetings() -> (r: Vec<InputDesiredMeeting>)
    ensures
        is_sample_written(r@),
{
    let mut out: Vec<InputDesiredMeeting> = Vec::new();
    out.push(
        sample_written(
            "title",
            "description",
            "laurent.charignon@foo.com",
            "foo.bar@laurent.com",
            1_518_084_000,
            1_519_149_600,
        ),
    );
    out.push(
        sample_written(
            "title2",
            "description 2",
            "laurent.charignon@foo.com",
            "contact@laurent.com",
            1_518_087_600,
            1_518_278_400,
        ),
    );
    out
}

/// The titles of the sample document have different slugs.
proof fn lemma_sample_titles(w: Seq<InputDesiredMeeting>)
    requires
        is_sample_written(w),
    ensures
        titles_distinct(w),
{
    reveal_strlit("title");
    reveal_strlit("title2");
    lemma_slug_of_plain("title"@);
    lemma_slug_of_plain("title2"@);
    assert("title"@.len() != "title2"@.len());
}

/// The desired meetings of the sample document: what its two written
/// meetings stand for, where the zone's rules give each end of their
/// windows one instant.
pub fn test_desired_meetings() -> (r: Result<Vec<DesiredMeeting>, InputError>)
    ensures
        exists|w: Seq<InputDesiredMeeting>|
            {
                &&& #[trigger] is_sample_written(w)
                &&& r is Ok <==> first_bad(w, 0) is None
                &&& match r {
                    Ok(ms) => all_stand_for(ms@, w) && slugs_distinct(ms@),
                    Err(e) => first_bad(w, 0) == Some(e),
                }
            },
{
    let written = test_written_meetings();
    proof {
        lemma_sample_titles(written@);
    }
    desired_meetings_from_input(&written)
}

/// The second desired meeting of the sample document.
pub fn test_desired_meeting() -> (r: Result<DesiredMeeting, InputError>)
    ensures
        exists|w: Seq<InputDesiredMeeting>|
            {
                &&& #[trigger] is_sample_written(w)
                &&& r is Ok <==> first_bad(w, 0) is None
                &&& match r {
                    Ok(m) => stands_for(m@, w[1]) && m.wf(),
                    Err(e) => first_bad(w, 0) == Some(e),
                }
            },
{
    match test_desired_meetings() {
        Ok(a) => {
            let m = a[1].clone();
            proof {
                let w = choose|w: Seq<InputDesiredMeeting>|
                    {
                        &&& #[trigger] is_sample_written(w)
                        &&& first_bad(w, 0) is None
                        &&& all_stand_for(a@, w) && slugs_distinct(a@)
                    };
                assert(stands_for(a[1]@, w[1]));
            }
            Ok(m)
        },
        Err(e) => Err(e),
    }
}

/// A sample candidate for the meeting `title`, with the room `foo`, at the
/// current instant.
pub fn sample_candidate_a() -> (c: MeetingCandidate)
    ensures
        c.title@ == "title"@,
        c.id@ == "id10873"@,
        opt_view(c.room) == Some("foo"@),
        c.score == 23,
{
    MeetingCandidate {
        title: "title".to_owned(),
        id: "id10873".to_owned(),
        start: now_utc(),
        end: now_utc(),
        room: Some("foo".to_owned()),
        score: 23,
    }
}

/// A sample candidate for the meeting `title2`, with the room `bar`, at the
/// current instant.
pub fn sample_candidate_b() -> (c: MeetingCandidate)
    ensures
        c.title@ == "title2"@,
        c.id@ == "0"@,
        opt_view(c.room) == Some("bar"@),
        c.score == 23,
{
    MeetingCandidate {
        title: "title2".to_owned(),
        id: "0".to_owned(),
        start: now_utc(),
        end: now_utc(),
        room: Some("bar".to_owned()),
        score: 23,
    }
}

} // verus!
