use vstd::prelude::*;

use crate::course::{rule_accepts, spec_matches_rule, CourseInstance, CourseRule, CourseView};
use crate::course::MatchedParts;
use crate::ledger::{Pairing, Reservation, ReservationLedger};

verus! {

/// The courses a student has completed, in transcript order.
#[derive(Debug, PartialEq)]
pub struct Transcript {
    pub courses: Vec<CourseInstance>,
}

/// The pairing through which entry `i` matches `rule`.
pub open spec fn match_at(t: Seq<CourseView>, rule: CourseRule, i: int) -> Reservation {
    Reservation { course: i as usize, parts: spec_matches_rule(t[i], rule) }
}

/// Entry `i` matches `rule`, and the course matched through those parts is
/// not yet reserved.
pub open spec fn available(
    t: Seq<CourseView>,
    rule: CourseRule,
    used: Seq<Pairing>,
    i: int,
) -> bool {
    &&& rule_accepts(t[i], rule)
    &&& !used.contains((t[i], spec_matches_rule(t[i], rule)))
}

/// The first available match at position `from` or later.
pub open spec fn first_available(
    t: Seq<CourseView>,
    rule: CourseRule,
    used: Seq<Pairing>,
    from: int,
) -> Option<Reservation>
    decreases t.len() - from,
{
    if from < 0 || from >= t.len() {
        None
    } else if available(t, rule, used, from) {
        Some(match_at(t, rule, from))
    } else {
        first_available(t, rule, used, from + 1)
    }
}

/// The last available match before position `upto`.
pub open spec fn last_available(
    t: Seq<CourseView>,
    rule: CourseRule,
    used: Seq<Pairing>,
    upto: int,
) -> Option<Reservation>
    decreases upto,
{
    if upto <= 0 || upto > t.len() {
        None
    } else if available(t, rule, used, upto - 1) {
        Some(match_at(t, rule, upto - 1))
    } else {
        last_available(t, rule, used, upto - 1)
    }
}

/// Every available match before position `upto`, in transcript order.
pub open spec fn all_available(
    t: Seq<CourseView>,
    rule: CourseRule,
    used: Seq<Pairing>,
    upto: int,
) -> Seq<Reservation>
    decreases upto,
{
    if upto <= 0 || upto > t.len() {
        Seq::empty()
    } else if available(t, rule, used, upto - 1) {
        all_available(t, rule, used, upto - 1).push(match_at(t, rule, upto - 1))
    } else {
        all_available(t, rule, used, upto - 1)
    }
}

pub proof fn lemma_first_in_range(
    t: Seq<CourseView>,
    rule: CourseRule,
    used: Seq<Pairing>,
    from: int,
)
    requires
        0 <= from,
        t.len() <= usize::MAX,
    ensures
        first_available(t, rule, used, from) matches Some(x) ==> x.course < t.len(),
    decreases t.len() - from,
{
    if 0 <= from < t.len() && !available(t, rule, used, from) {
        lemma_first_in_range(t, rule, used, from + 1);
    }
}

impl Transcript {
    pub open spec fn view(&self) -> Seq<CourseView> {
        self.courses@.map_values(|c: CourseInstance| c@)
    }

    pub fn new(courses: &[CourseInstance]) -> (r: Transcript)
        ensures
            r@ == courses@.map_values(|c: CourseInstance| c@),
    {
        let mut v: Vec<CourseInstance> = Vec::new();
        let mut i: usize = 0;
        while i < courses.len()
            invariant
                0 <= i <= courses@.len(),
                v@.len() == i,
                forall|k: int| 0 <= k < i ==> v@[k]@ == courses@[k]@,
            decreases courses@.len() - i,
        {
            v.push(courses[i].duplicate());
            i = i + 1;
        }
        assert(v@.map_values(|c: CourseInstance| c@) =~= courses@.map_values(|c: CourseInstance| c@));
        Transcript { courses: v }
    }

    pub fn len(&self) -> (r: usize)
        ensures
            r == self@.len(),
    {
        self.courses.len()
    }

    /// The first course, in transcript order, that matches `filter` through
    /// parts with which it is not yet in `already_used`, and those parts.
    pub fn has_course_matching(&self, filter: &CourseRule, already_used: &ReservationLedger) -> (r:
        Option<(CourseInstance, MatchedParts)>)
        ensures
            match first_available(self@, *filter, already_used@, 0) {
                Some(x) => r is Some && r->Some_0.0@ == self@[x.course as int] && r->Some_0.1
                    == x.parts,
                None => r is None,
            },
    {
        match self.first_course_matching(filter, already_used) {
            Some(x) => {
                proof {
                    assert(self@.len() == self.courses.len());
                    lemma_first_in_range(self@, *filter, already_used@, 0);
                }
                assert(self@[x.course as int] == self.courses@[x.course as int]@);
                Some((self.courses[x.course].duplicate(), x.parts))
            },
            None => None,
        }
    }

    /// The position of the first entry that `has_course_matching` finds, and
    /// the parts it matched through.
    pub fn first_course_matching(&self, filter: &CourseRule, already_used: &ReservationLedger) -> (r:
        Option<Reservation>)
        ensures
            r == first_available(self@, *filter, already_used@, 0),
    {
        let mut i: usize = 0;
        while i < self.courses.len()
            invariant
                0 <= i <= self@.len(),
                first_available(self@, *filter, already_used@, 0) == first_available(
                    self@,
                    *filter,
                    already_used@,
                    i as int,
                ),
            decreases self@.len() - i,
        {
            let m = self.courses[i].matches_rule(filter);
            let found = Reservation { course: i, parts: m };
            if m.any() && !already_used.contains(&self.courses[i], m) {
                return Some(found);
            }
            i = i + 1;
        }
        None
    }

    /// The last entry, in transcript order, that matches `filter` through a
    /// pairing not yet in `already_used`.
    pub fn last_course_matching(&self, filter: &CourseRule, already_used: &ReservationLedger) -> (r:
        Option<Reservation>)
        ensures
            r == last_available(self@, *filter, already_used@, self@.len() as int),
    {
        let mut i: usize = self.courses.len();
        while i > 0
            invariant
                0 <= i <= self@.len(),
                last_available(self@, *filter, already_used@, self@.len() as int)
                    == last_available(self@, *filter, already_used@, i as int),
            decreases i,
        {
            let m = self.courses[i - 1].matches_rule(filter);
            let found = Reservation { course: i - 1, parts: m };
            if m.any() && !already_used.contains(&self.courses[i - 1], m) {
                return Some(found);
            }
            i = i - 1;
        }
        None
    }

    /// Every entry that matches `filter` through a pairing not yet in
    /// `already_used`, in transcript order.
    pub fn all_courses_matching(&self, filter: &CourseRule, already_used: &ReservationLedger) -> (r:
        Vec<Reservation>)
        ensures
            r@ == all_available(self@, *filter, already_used@, self@.len() as int),
    {
        let mut out: Vec<Reservation> = Vec::new();
        let mut i: usize = 0;
        while i < self.courses.len()
            invariant
                0 <= i <= self@.len(),
                out@ == all_available(self@, *filter, already_used@, i as int),
            decreases self@.len() - i,
        {
            let m = self.courses[i].matches_rule(filter);
            let found = Reservation { course: i, parts: m };
            if m.any() && !already_used.contains(&self.courses[i], m) {
                out.push(found);
            }
            i = i + 1;
        }
        out
    }
}

} // verus!
