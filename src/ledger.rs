use vstd::prelude::*;

use crate::course::{CourseInstance, CourseView, MatchedParts};
use crate::transcript::Transcript;

verus! {

/// A candidate: a transcript entry, by its position in the transcript,
/// together with the parts of a rule that it was matched through.
#[derive(Clone, Copy, Debug, PartialEq, Eq, Structural)]
pub struct Reservation {
    pub course: usize,
    pub parts: MatchedParts,
}

/// A committed pairing: a course, and the parts it was matched through.
pub type Pairing = (CourseView, MatchedParts);

/// The pairing that candidate `r` stands for in transcript `t`.
pub open spec fn pairing_of(t: Seq<CourseView>, r: Reservation) -> Pairing {
    (t[r.course as int], r.parts)
}

pub open spec fn pairings_of(rs: Seq<Reservation>, t: Seq<CourseView>) -> Seq<Pairing> {
    rs.map_values(|r: Reservation| pairing_of(t, r))
}

/// One entry of the ledger: the course itself and the parts it was matched
/// through.
#[derive(Debug, PartialEq)]
pub struct Reserved {
    pub course: CourseInstance,
    pub parts: MatchedParts,
}

impl Reserved {
    pub open spec fn view(&self) -> Pairing {
        (self.course@, self.parts)
    }
}

/// The pairings already committed to some rule during one audit pass, keyed
/// on the course and the parts it was matched through.
#[derive(Debug, PartialEq)]
pub struct ReservationLedger {
    pub reserved: Vec<Reserved>,
}

/// `s` with `r` added, unless it is there already.
pub open spec fn with_reservation<T>(s: Seq<T>, r: T) -> Seq<T> {
    if s.contains(r) {
        s
    } else {
        s.push(r)
    }
}

/// `s` with each of `rs` added in order, skipping those already present.
pub open spec fn with_reservations<T>(s: Seq<T>, rs: Seq<T>) -> Seq<T>
    decreases rs.len(),
{
    if rs.len() == 0 {
        s
    } else {
        with_reservation(with_reservations(s, rs.drop_last()), rs.last())
    }
}

pub proof fn lemma_with_reservation<T>(s: Seq<T>, r: T)
    ensures
        s.no_duplicates() ==> with_reservation(s, r).no_duplicates(),
        with_reservation(s, r).contains(r),
        forall|x: T| s.contains(x) ==> with_reservation(s, r).contains(x),
        forall|x: T| #[trigger]
            with_reservation(s, r).contains(x) ==> s.contains(x) || x == r,
        s.is_prefix_of(with_reservation(s, r)),
{
    let t = s.push(r);
    if !s.contains(r) {
        assert(t[s.len() as int] == r);
        assert forall|x: T| s.contains(x) implies t.contains(x) by {
            let k = choose|k: int| 0 <= k < s.len() && s[k] == x;
            assert(t[k] == x);
        }
        assert forall|x: T| #[trigger] t.contains(x) implies s.contains(x) || x == r by {
            let k = choose|k: int| 0 <= k < t.len() && t[k] == x;
            if k < s.len() {
                assert(s[k] == x);
            }
        }
        if s.no_duplicates() {
            assert forall|i: int, j: int| 0 <= i < j < t.len() implies t[i] != t[j] by {
                if j == s.len() {
                    assert(s[i] == t[i]);
                }
            }
        }
        assert(t.subrange(0, s.len() as int) =~= s);
    } else {
        assert(s.subrange(0, s.len() as int) =~= s);
    }
}

pub proof fn lemma_with_reservations_grows<T>(s: Seq<T>, rs: Seq<T>)
    ensures
        s.no_duplicates() ==> with_reservations(s, rs).no_duplicates(),
        forall|x: T| s.contains(x) ==> with_reservations(s, rs).contains(x),
        forall|x: T| rs.contains(x) ==> with_reservations(s, rs).contains(x),
        forall|x: T| #[trigger]
            with_reservations(s, rs).contains(x) ==> s.contains(x) || rs.contains(x),
        s.is_prefix_of(with_reservations(s, rs)),
    decreases rs.len(),
{
    if rs.len() == 0 {
        assert(s.subrange(0, s.len() as int) =~= s);
    } else {
        let front = rs.drop_last();
        let mid = with_reservations(s, front);
        lemma_with_reservations_grows(s, front);
        lemma_with_reservation(mid, rs.last());
        assert forall|x: T| rs.contains(x) implies with_reservations(s, rs).contains(x) by {
            let k = choose|k: int| 0 <= k < rs.len() && rs[k] == x;
            if k < rs.len() - 1 {
                assert(front[k] == x);
                assert(front.contains(x));
                assert(mid.contains(x));
            } else {
                assert(x == rs.last());
            }
        }
        assert forall|x: T| #[trigger]
            with_reservations(s, rs).contains(x) implies s.contains(x) || rs.contains(x) by {
            if mid.contains(x) {
                if front.contains(x) {
                    let k = choose|k: int| 0 <= k < front.len() && front[k] == x;
                    assert(rs[k] == x);
                }
            } else {
                assert(rs[rs.len() - 1] == x);
            }
        }
        let whole = with_reservations(s, rs);
        assert forall|k: int| 0 <= k < s.len() implies whole[k] == s[k] by {
            assert(mid[k] == s[k]);
            assert(whole.subrange(0, mid.len() as int)[k] == mid[k]);
        }
        assert(whole.subrange(0, s.len() as int) =~= s);
    }
}

impl ReservationLedger {
    pub open spec fn view(&self) -> Seq<Pairing> {
        self.reserved@.map_values(|e: Reserved| e@)
    }

    /// No pairing is committed twice.
    pub open spec fn wf(&self) -> bool {
        self@.no_duplicates()
    }

    pub fn new() -> (r: ReservationLedger)
        ensures
            r@ == Seq::<Pairing>::empty(),
            r.wf(),
    {
        let r = ReservationLedger { reserved: Vec::new() };
        assert(r@ =~= Seq::<Pairing>::empty());
        r
    }

    /// Whether `course`, matched through `parts`, is committed.
    pub fn contains(&self, course: &CourseInstance, parts: MatchedParts) -> (r: bool)
        ensures
            r == self@.contains((course@, parts)),
    {
        let mut i: usize = 0;
        while i < self.reserved.len()
            invariant
                0 <= i <= self.reserved.len(),
                forall|k: int| 0 <= k < i ==> self@[k] != (course@, parts),
            decreases self.reserved.len() - i,
        {
            if self.reserved[i].parts == parts && self.reserved[i].course.same_as(course) {
                assert(self@[i as int] == (course@, parts));
                return true;
            }
            i = i + 1;
        }
        false
    }

    /// Commits `course` matched through `parts`, unless it is committed already.
    pub fn reserve(&mut self, course: &CourseInstance, parts: MatchedParts)
        requires
            old(self).wf(),
        ensures
            final(self)@ == with_reservation(old(self)@, (course@, parts)),
            final(self).wf(),
    {
        if !self.contains(course, parts) {
            let ghost s = self@;
            let e = Reserved { course: course.duplicate(), parts };
            self.reserved.push(e);
            proof {
                let item = (course@, parts);
                assert(self@ =~= s.push(item));
                assert forall|i: int, j: int|
                    0 <= i < j < s.push(item).len() implies s.push(item)[i] != s.push(item)[j] by {
                    if j == s.len() {
                        assert(s[i] == s.push(item)[i]);
                    }
                }
            }
        }
    }

    /// Commits the pairing of each candidate of `items` in order.
    pub fn reserve_all(&mut self, items: &Vec<Reservation>, t: &Transcript)
        requires
            old(self).wf(),
            forall|k: int| 0 <= k < items@.len() ==> (#[trigger] items@[k]).course < t@.len(),
        ensures
            final(self)@ == with_reservations(old(self)@, pairings_of(items@, t@)),
            final(self).wf(),
    {
        let ghost all = pairings_of(items@, t@);
        let mut i: usize = 0;
        while i < items.len()
            invariant
                0 <= i <= items.len(),
                all == pairings_of(items@, t@),
                forall|k: int| 0 <= k < items@.len() ==> (#[trigger] items@[k]).course < t@.len(),
                self.wf(),
                self@ == with_reservations(old(self)@, all.subrange(0, i as int)),
            decreases items.len() - i,
        {
            let x = items[i];
            assert(t@[x.course as int] == t.courses@[x.course as int]@);
            self.reserve(&t.courses[x.course], x.parts);
            proof {
                let next = all.subrange(0, i + 1);
                assert(next.drop_last() =~= all.subrange(0, i as int));
                assert(next.last() == all[i as int]);
            }
            i = i + 1;
        }
        assert(all.subrange(0, items.len() as int) =~= all);
    }

    pub fn copy(&self) -> (r: ReservationLedger)
        ensures
            r@ == self@,
            r.wf() == self.wf(),
    {
        let mut reserved: Vec<Reserved> = Vec::new();
        let mut i: usize = 0;
        while i < self.reserved.len()
            invariant
                0 <= i <= self.reserved.len(),
                reserved@.len() == i,
                forall|k: int| 0 <= k < i ==> reserved@[k]@ == self.reserved@[k]@,
            decreases self.reserved.len() - i,
        {
            let e = &self.reserved[i];
            reserved.push(Reserved { course: e.course.duplicate(), parts: e.parts });
            i = i + 1;
        }
        let r = ReservationLedger { reserved };
        assert(r@ =~= self@);
        r
    }
}

} // verus!
