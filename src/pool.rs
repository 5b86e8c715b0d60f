use vstd::prelude::*;

use crate::context::{find_named, Context, Env};
use crate::course::{code_parts, texts, CourseRule, CourseView, MatchedParts};
use crate::filter::{area_passes, course_passes, holds_text, Clause, DeclaredArea};
use crate::ledger::{pairing_of, pairings_of, with_reservations, Pairing, Reservation, ReservationLedger};
use crate::result::AuditError;
use crate::rules::given::{Given, Limiter, RepeatMode, What};
use crate::rules::RequirementRef;
use crate::transcript::{
    all_available, first_available, last_available, lemma_first_in_range, match_at, Transcript,
};

verus! {

pub open spec fn option_seq(o: Option<Reservation>) -> Seq<Reservation> {
    match o {
        Some(r) => seq![r],
        None => Seq::empty(),
    }
}

/// The occurrences of `r` that a repeat mode takes, among those not in `used`.
pub open spec fn pick(t: Seq<CourseView>, r: CourseRule, mode: RepeatMode, used: Seq<Pairing>) -> Seq<
    Reservation,
> {
    match mode {
        RepeatMode::First => option_seq(first_available(t, r, used, 0)),
        RepeatMode::Last => option_seq(last_available(t, r, used, t.len() as int)),
        RepeatMode::All => all_available(t, r, used, t.len() as int),
    }
}

/// The candidates of the first `k` listed courses, and `used` together with
/// them: a course picked for one entry of the list is not picked again.
pub open spec fn these_courses(
    courses: Seq<CourseRule>,
    mode: RepeatMode,
    t: Seq<CourseView>,
    used: Seq<Pairing>,
    k: int,
) -> (Seq<Reservation>, Seq<Pairing>)
    decreases k,
{
    if k <= 0 || k > courses.len() {
        (Seq::empty(), used)
    } else {
        let (p, s) = these_courses(courses, mode, t, used, k - 1);
        let picked = pick(t, courses[k - 1], mode, s);
        (p + picked, with_reservations(s, pairings_of(picked, t)))
    }
}

/// Each of the first `n` transcript entries, taken whole, unless the course is
/// reserved so.
pub open spec fn whole_courses(t: Seq<CourseView>, used: Seq<Pairing>, n: int) -> Seq<Reservation>
    decreases n,
{
    if n <= 0 {
        Seq::empty()
    } else {
        let rest = whole_courses(t, used, n - 1);
        let x = Reservation { course: (n - 1) as usize, parts: code_parts() };
        if used.contains(pairing_of(t, x)) {
            rest
        } else {
            rest.push(x)
        }
    }
}

/// The first `n` candidates of `p` whose course, with their parts, is not in
/// `used`.
pub open spec fn unreserved(p: Seq<Reservation>, t: Seq<CourseView>, used: Seq<Pairing>, n: int) -> Seq<
    Reservation,
>
    decreases n,
{
    if n <= 0 || n > p.len() {
        Seq::empty()
    } else if p[n - 1].course < t.len() && used.contains(pairing_of(t, p[n - 1])) {
        unreserved(p, t, used, n - 1)
    } else {
        unreserved(p, t, used, n - 1).push(p[n - 1])
    }
}

/// What the first `k` referenced requirements claimed; an absent reference is
/// an error unless it is optional.
pub open spec fn requirements_pool(
    refs: Seq<RequirementRef>,
    reqs: Seq<(Seq<char>, crate::result::ResultView)>,
    k: int,
) -> Result<Seq<Reservation>, AuditError>
    decreases k,
{
    if k <= 0 || k > refs.len() {
        Ok(Seq::empty())
    } else {
        match requirements_pool(refs, reqs, k - 1) {
            Err(e) => Err(e),
            Ok(p) => match find_named(reqs, refs[k - 1].name@, 0) {
                Some(v) => Ok(p + v.claimed),
                None => if refs[k - 1].optional {
                    Ok(p)
                } else {
                    Err(AuditError::UnknownRequirement)
                },
            },
        }
    }
}

proof fn lemma_requirements_pool_error_stays(
    refs: Seq<RequirementRef>,
    reqs: Seq<(Seq<char>, crate::result::ResultView)>,
    k: int,
    m: int,
)
    requires
        0 < k <= m <= refs.len(),
        requirements_pool(refs, reqs, k) is Err,
    ensures
        requirements_pool(refs, reqs, m) == requirements_pool(refs, reqs, k),
    decreases m - k,
{
    if m > k {
        lemma_requirements_pool_error_stays(refs, reqs, k, m - 1);
    }
}

/// The candidate pairings of a course source, before filtering.
pub open spec fn source_pool(g: Given, env: Env, used: Seq<Pairing>) -> Result<
    Seq<Reservation>,
    AuditError,
> {
    match g {
        Given::AllCourses => Ok(whole_courses(env.transcript, used, env.transcript.len() as int)),
        Given::TheseCourses { courses, repeats } => Ok(
            these_courses(courses@, repeats, env.transcript, used, courses.len() as int).0,
        ),
        Given::TheseRequirements { requirements } => requirements_pool(
            requirements@,
            env.requirements,
            requirements.len() as int,
        ),
        Given::NamedVariable { save } => match find_named(env.variables, save@, 0) {
            Some(p) => Ok(unreserved(p, env.transcript, used, p.len() as int)),
            None => Err(AuditError::UndefinedVariable),
        },
        _ => Err(AuditError::WhatMismatch),
    }
}

pub open spec fn passes_filter(filter: Option<Clause>, c: CourseView) -> bool {
    match filter {
        Some(f) => course_passes(f@, c),
        None => true,
    }
}

/// The first `n` pairings of `pool` that name a transcript entry passing the
/// filter.
pub open spec fn keep_passing(
    pool: Seq<Reservation>,
    t: Seq<CourseView>,
    filter: Option<Clause>,
    n: int,
) -> Seq<Reservation>
    decreases n,
{
    if n <= 0 || n > pool.len() {
        Seq::empty()
    } else {
        let x = pool[n - 1];
        let rest = keep_passing(pool, t, filter, n - 1);
        if x.course < t.len() && passes_filter(filter, t[x.course as int]) {
            rest.push(x)
        } else {
            rest
        }
    }
}

/// The first `n` pairings of `pool` under one limiter, and how many of those
/// kept passed the limiter's clause.
pub open spec fn limit_once(pool: Seq<Reservation>, t: Seq<CourseView>, lim: Limiter, n: int) -> (Seq<
    Reservation,
>, nat)
    decreases n,
{
    if n <= 0 || n > pool.len() {
        (Seq::empty(), 0)
    } else {
        let (kept, seen) = limit_once(pool, t, lim, n - 1);
        let x = pool[n - 1];
        if x.course < t.len() && course_passes(lim.filter@, t[x.course as int]) {
            if seen < lim.at_most {
                (kept.push(x), seen + 1)
            } else {
                (kept, seen)
            }
        } else {
            (kept.push(x), seen)
        }
    }
}

/// `pool` under the first `k` limiters, applied in order.
pub open spec fn apply_limits(pool: Seq<Reservation>, t: Seq<CourseView>, lims: Seq<Limiter>, k: int) -> Seq<
    Reservation,
>
    decreases k,
{
    if k <= 0 || k > lims.len() {
        pool
    } else {
        let before = apply_limits(pool, t, lims, k - 1);
        limit_once(before, t, lims[k - 1], before.len() as int).0
    }
}

pub open spec fn limited(pool: Seq<Reservation>, t: Seq<CourseView>, limit: Option<Vec<Limiter>>) -> Seq<
    Reservation,
> {
    match limit {
        Some(ls) => apply_limits(pool, t, ls@, ls.len() as int),
        None => pool,
    }
}

pub open spec fn in_transcript(pool: Seq<Reservation>, len: int) -> bool {
    forall|k: int| 0 <= k < pool.len() ==> (#[trigger] pool[k]).course < len
}

pub open spec fn add_new(acc: Seq<Seq<char>>, x: Seq<char>) -> Seq<Seq<char>> {
    if acc.contains(x) {
        acc
    } else {
        acc.push(x)
    }
}

pub open spec fn add_all_new(acc: Seq<Seq<char>>, xs: Seq<Seq<char>>, n: int) -> Seq<Seq<char>>
    decreases n,
{
    if n <= 0 || n > xs.len() {
        acc
    } else {
        add_new(add_all_new(acc, xs, n - 1), xs[n - 1])
    }
}

/// The distinct course codes of the first `n` pairings, in first-seen order.
pub open spec fn distinct_codes(pool: Seq<Reservation>, t: Seq<CourseView>, n: int) -> Seq<Seq<char>>
    decreases n,
{
    if n <= 0 || n > pool.len() {
        Seq::empty()
    } else {
        add_new(distinct_codes(pool, t, n - 1), t[pool[n - 1].course as int].course)
    }
}

pub open spec fn distinct_terms(pool: Seq<Reservation>, t: Seq<CourseView>, n: int) -> Seq<Seq<char>>
    decreases n,
{
    if n <= 0 || n > pool.len() {
        Seq::empty()
    } else {
        add_new(distinct_terms(pool, t, n - 1), t[pool[n - 1].course as int].term)
    }
}

pub open spec fn distinct_departments(pool: Seq<Reservation>, t: Seq<CourseView>, n: int) -> Seq<
    Seq<char>,
>
    decreases n,
{
    if n <= 0 || n > pool.len() {
        Seq::empty()
    } else {
        let ds = t[pool[n - 1].course as int].departments;
        add_all_new(distinct_departments(pool, t, n - 1), ds, ds.len() as int)
    }
}

pub open spec fn credit_total(pool: Seq<Reservation>, t: Seq<CourseView>, n: int) -> int
    decreases n,
{
    if n <= 0 || n > pool.len() {
        0
    } else {
        credit_total(pool, t, n - 1) + t[pool[n - 1].course as int].credits
    }
}

pub open spec fn grade_points_of(c: CourseView) -> int {
    match c.grade_points {
        Some(g) => g as int,
        None => 0,
    }
}

pub open spec fn grade_total(pool: Seq<Reservation>, t: Seq<CourseView>, n: int) -> int
    decreases n,
{
    if n <= 0 || n > pool.len() {
        0
    } else {
        grade_total(pool, t, n - 1) + grade_points_of(t[pool[n - 1].course as int])
    }
}

pub open spec fn graded_count(pool: Seq<Reservation>, t: Seq<CourseView>, n: int) -> int
    decreases n,
{
    if n <= 0 || n > pool.len() {
        0
    } else {
        graded_count(pool, t, n - 1) + if t[pool[n - 1].course as int].grade_points.is_some() {
            1int
        } else {
            0int
        }
    }
}

/// The course codes of the entries that `pool` names.
pub open spec fn codes_of(pool: Seq<Reservation>, t: Seq<CourseView>) -> Seq<Seq<char>> {
    pool.map_values(|r: Reservation| t[r.course as int].course)
}

/// The terms of the entries that `pool` names.
pub open spec fn terms_of(pool: Seq<Reservation>, t: Seq<CourseView>) -> Seq<Seq<char>> {
    pool.map_values(|r: Reservation| t[r.course as int].term)
}

/// Every department of every entry that `pool` names.
pub open spec fn departments_of(pool: Seq<Reservation>, t: Seq<CourseView>) -> Seq<Seq<char>> {
    pool.map_values(|r: Reservation| t[r.course as int].departments).flatten()
}

/// The derived quantity, and the number of items it was derived from (for
/// grades, the number of graded courses). Distinct courses, departments and
/// terms are the sizes of the sets of codes, departments and terms.
pub open spec fn quantity(what: What, kept: Seq<Reservation>, t: Seq<CourseView>) -> (int, int) {
    let n = kept.len() as int;
    match what {
        What::Courses => (n, n),
        What::DistinctCourses => (codes_of(kept, t).to_set().len() as int, n),
        What::Credits => (credit_total(kept, t, n), n),
        What::Departments => (departments_of(kept, t).to_set().len() as int, n),
        What::Terms => (terms_of(kept, t).to_set().len() as int, n),
        What::Grades => (grade_total(kept, t, n), graded_count(kept, t, n)),
        _ => (0, 0),
    }
}

proof fn lemma_add_new(acc: Seq<Seq<char>>, x: Seq<char>)
    ensures
        acc.no_duplicates() ==> add_new(acc, x).no_duplicates(),
        forall|y: Seq<char>| #[trigger] add_new(acc, x).contains(y) <==> acc.contains(y) || y == x,
{
    if !acc.contains(x) {
        let b = acc.push(x);
        assert(b[acc.len() as int] == x);
        assert forall|y: Seq<char>| #[trigger] b.contains(y) <==> acc.contains(y) || y == x by {
            if acc.contains(y) {
                let k = choose|k: int| 0 <= k < acc.len() && acc[k] == y;
                assert(b[k] == y);
            }
            if b.contains(y) && y != x {
                let k = choose|k: int| 0 <= k < b.len() && b[k] == y;
                assert(acc[k] == y);
            }
        }
        if acc.no_duplicates() {
            assert forall|i: int, j: int| 0 <= i < j < b.len() implies b[i] != b[j] by {
                if j == acc.len() {
                    assert(acc[i] == b[i]);
                }
            }
        }
    }
}

proof fn lemma_add_all_new(acc: Seq<Seq<char>>, xs: Seq<Seq<char>>, n: int)
    requires
        0 <= n <= xs.len(),
    ensures
        acc.no_duplicates() ==> add_all_new(acc, xs, n).no_duplicates(),
        forall|y: Seq<char>| #[trigger]
            add_all_new(acc, xs, n).contains(y) <==> acc.contains(y) || xs.subrange(0, n).contains(
                y,
            ),
    decreases n,
{
    if n > 0 {
        lemma_add_all_new(acc, xs, n - 1);
        lemma_add_new(add_all_new(acc, xs, n - 1), xs[n - 1]);
        assert(xs.subrange(0, n) =~= xs.subrange(0, n - 1).push(xs[n - 1]));
        lemma_push_contains(xs.subrange(0, n - 1), xs[n - 1]);
    }
}

proof fn lemma_push_contains(s: Seq<Seq<char>>, x: Seq<char>)
    ensures
        forall|y: Seq<char>| #[trigger] s.push(x).contains(y) <==> s.contains(y) || y == x,
{
    assert forall|y: Seq<char>| #[trigger] s.push(x).contains(y) <==> s.contains(y) || y == x by {
        if s.contains(y) {
            let k = choose|k: int| 0 <= k < s.len() && s[k] == y;
            assert(s.push(x)[k] == y);
        }
        if y == x {
            assert(s.push(x)[s.len() as int] == y);
        }
        if s.push(x).contains(y) && y != x {
            let k = choose|k: int| 0 <= k < s.push(x).len() && s.push(x)[k] == y;
            assert(s[k] == y);
        }
    }
}

/// A sequence without duplicates that holds the same values as `s` is as long
/// as the set of `s`.
proof fn lemma_same_values_count(d: Seq<Seq<char>>, s: Seq<Seq<char>>)
    requires
        d.no_duplicates(),
        forall|y: Seq<char>| #[trigger] d.contains(y) <==> s.contains(y),
    ensures
        d.len() == s.to_set().len(),
{
    d.unique_seq_to_set();
    assert(d.to_set() =~= s.to_set());
}

proof fn lemma_distinct_codes(pool: Seq<Reservation>, t: Seq<CourseView>, n: int)
    requires
        0 <= n <= pool.len(),
    ensures
        distinct_codes(pool, t, n).no_duplicates(),
        forall|y: Seq<char>| #[trigger]
            distinct_codes(pool, t, n).contains(y) <==> codes_of(pool, t).subrange(0, n).contains(y),
    decreases n,
{
    let c = codes_of(pool, t);
    if n == 0 {
        assert(c.subrange(0, 0) =~= Seq::<Seq<char>>::empty());
    } else {
        lemma_distinct_codes(pool, t, n - 1);
        lemma_add_new(distinct_codes(pool, t, n - 1), c[n - 1]);
        assert(c.subrange(0, n) =~= c.subrange(0, n - 1).push(c[n - 1]));
        lemma_push_contains(c.subrange(0, n - 1), c[n - 1]);
    }
}

proof fn lemma_distinct_terms(pool: Seq<Reservation>, t: Seq<CourseView>, n: int)
    requires
        0 <= n <= pool.len(),
    ensures
        distinct_terms(pool, t, n).no_duplicates(),
        forall|y: Seq<char>| #[trigger]
            distinct_terms(pool, t, n).contains(y) <==> terms_of(pool, t).subrange(0, n).contains(y),
    decreases n,
{
    let c = terms_of(pool, t);
    if n == 0 {
        assert(c.subrange(0, 0) =~= Seq::<Seq<char>>::empty());
    } else {
        lemma_distinct_terms(pool, t, n - 1);
        lemma_add_new(distinct_terms(pool, t, n - 1), c[n - 1]);
        assert(c.subrange(0, n) =~= c.subrange(0, n - 1).push(c[n - 1]));
        lemma_push_contains(c.subrange(0, n - 1), c[n - 1]);
    }
}

proof fn lemma_distinct_departments(pool: Seq<Reservation>, t: Seq<CourseView>, n: int)
    requires
        0 <= n <= pool.len(),
    ensures
        distinct_departments(pool, t, n).no_duplicates(),
        forall|y: Seq<char>| #[trigger]
            distinct_departments(pool, t, n).contains(y) <==> pool.map_values(
                |r: Reservation| t[r.course as int].departments,
            ).subrange(0, n).flatten_alt().contains(y),
    decreases n,
{
    let lists = pool.map_values(|r: Reservation| t[r.course as int].departments);
    if n == 0 {
        assert(lists.subrange(0, 0) =~= Seq::<Seq<Seq<char>>>::empty());
    } else {
        lemma_distinct_departments(pool, t, n - 1);
        let ds = t[pool[n - 1].course as int].departments;
        assert(lists[n - 1] == ds);
        lemma_add_all_new(distinct_departments(pool, t, n - 1), ds, ds.len() as int);
        assert(ds.subrange(0, ds.len() as int) =~= ds);
        let pre = lists.subrange(0, n);
        assert(pre.drop_last() =~= lists.subrange(0, n - 1));
        assert(pre.flatten_alt() == lists.subrange(0, n - 1).flatten_alt() + ds);
        let a = lists.subrange(0, n - 1).flatten_alt();
        assert forall|y: Seq<char>| #[trigger] (a + ds).contains(y) <==> a.contains(y) || ds.contains(
            y,
        ) by {
            if a.contains(y) {
                let k = choose|k: int| 0 <= k < a.len() && a[k] == y;
                assert((a + ds)[k] == y);
            }
            if ds.contains(y) {
                let k = choose|k: int| 0 <= k < ds.len() && ds[k] == y;
                assert((a + ds)[a.len() + k] == y);
            }
            if (a + ds).contains(y) {
                let k = choose|k: int| 0 <= k < (a + ds).len() && (a + ds)[k] == y;
                if k < a.len() {
                    assert(a[k] == y);
                } else {
                    assert(ds[k - a.len()] == y);
                }
            }
        }
    }
}

/// The counting loops' results are the sizes of the sets of codes, terms and
/// departments.
proof fn lemma_distinct_counts(pool: Seq<Reservation>, t: Seq<CourseView>)
    ensures
        distinct_codes(pool, t, pool.len() as int).len() == codes_of(pool, t).to_set().len(),
        distinct_terms(pool, t, pool.len() as int).len() == terms_of(pool, t).to_set().len(),
        distinct_departments(pool, t, pool.len() as int).len() == departments_of(
            pool,
            t,
        ).to_set().len(),
{
    let n = pool.len() as int;
    lemma_distinct_codes(pool, t, n);
    assert(codes_of(pool, t).subrange(0, n) =~= codes_of(pool, t));
    lemma_same_values_count(distinct_codes(pool, t, n), codes_of(pool, t));
    lemma_distinct_terms(pool, t, n);
    assert(terms_of(pool, t).subrange(0, n) =~= terms_of(pool, t));
    lemma_same_values_count(distinct_terms(pool, t, n), terms_of(pool, t));
    lemma_distinct_departments(pool, t, n);
    let lists = pool.map_values(|r: Reservation| t[r.course as int].departments);
    assert(lists.subrange(0, n) =~= lists);
    lists.lemma_flatten_and_flatten_alt_are_equivalent();
    lemma_same_values_count(distinct_departments(pool, t, n), departments_of(pool, t));
}

/// How many of the first `n` declared areas pass the filter.
pub open spec fn areas_passing(areas: Seq<DeclaredArea>, filter: Option<Clause>, n: int) -> int
    decreases n,
{
    if n <= 0 || n > areas.len() {
        0
    } else {
        areas_passing(areas, filter, n - 1) + if match filter {
            Some(f) => area_passes(f@, areas[n - 1]),
            None => true,
        } {
            1int
        } else {
            0int
        }
    }
}

pub(crate) fn append(out: &mut Vec<Reservation>, more: &Vec<Reservation>)
    ensures
        final(out)@ == old(out)@ + more@,
{
    let mut i: usize = 0;
    while i < more.len()
        invariant
            0 <= i <= more.len(),
            out@ == old(out)@ + more@.subrange(0, i as int),
        decreases more.len() - i,
    {
        out.push(more[i]);
        i = i + 1;
        assert(out@ =~= old(out)@ + more@.subrange(0, i as int));
    }
    assert(more@.subrange(0, more.len() as int) == more@);
}

fn whole_courses_exec(t: &Transcript, used: &ReservationLedger) -> (r: Vec<Reservation>)
    ensures
        r@ == whole_courses(t@, used@, t@.len() as int),
{
    let mut out: Vec<Reservation> = Vec::new();
    let mut i: usize = 0;
    let n = t.len();
    while i < n
        invariant
            0 <= i <= n,
            n == t@.len(),
            out@ == whole_courses(t@, used@, i as int),
        decreases n - i,
    {
        let x = Reservation { course: i, parts: MatchedParts::code_only() };
        assert(t@[i as int] == t.courses@[i as int]@);
        if !used.contains(&t.courses[i], x.parts) {
            out.push(x);
        }
        i = i + 1;
    }
    out
}

fn unreserved_exec(p: &Vec<Reservation>, t: &Transcript, used: &ReservationLedger) -> (r: Vec<
    Reservation,
>)
    ensures
        r@ == unreserved(p@, t@, used@, p@.len() as int),
{
    let mut out: Vec<Reservation> = Vec::new();
    let mut i: usize = 0;
    while i < p.len()
        invariant
            0 <= i <= p.len(),
            out@ == unreserved(p@, t@, used@, i as int),
        decreases p.len() - i,
    {
        let x = p[i];
        let taken = if x.course < t.courses.len() {
            assert(t@[x.course as int] == t.courses@[x.course as int]@);
            used.contains(&t.courses[x.course], x.parts)
        } else {
            false
        };
        if !taken {
            out.push(x);
        }
        i = i + 1;
    }
    out
}

proof fn lemma_last_in_range(t: Seq<CourseView>, rule: CourseRule, used: Seq<Pairing>, upto: int)
    ensures
        last_available(t, rule, used, upto) matches Some(x) ==> x.course < t.len(),
    decreases upto,
{
    if 0 < upto <= t.len() {
        lemma_last_in_range(t, rule, used, upto - 1);
    }
}

proof fn lemma_all_in_range(t: Seq<CourseView>, rule: CourseRule, used: Seq<Pairing>, upto: int)
    ensures
        in_transcript(all_available(t, rule, used, upto), t.len() as int),
    decreases upto,
{
    if 0 < upto <= t.len() {
        lemma_all_in_range(t, rule, used, upto - 1);
        let rest = all_available(t, rule, used, upto - 1);
        assert forall|k: int| 0 <= k < rest.push(match_at(t, rule, upto - 1)).len() implies (
        #[trigger] rest.push(match_at(t, rule, upto - 1))[k]).course < t.len() by {
            if k < rest.len() {
                assert(rest.push(match_at(t, rule, upto - 1))[k] == rest[k]);
            }
        }
    }
}

fn pick_exec(t: &Transcript, r: &CourseRule, mode: RepeatMode, used: &ReservationLedger) -> (out: Vec<
    Reservation,
>)
    ensures
        out@ == pick(t@, *r, mode, used@),
        in_transcript(out@, t@.len() as int),
{
    proof {
        assert(t@.len() == t.courses.len());
        lemma_first_in_range(t@, *r, used@, 0);
        lemma_last_in_range(t@, *r, used@, t@.len() as int);
        lemma_all_in_range(t@, *r, used@, t@.len() as int);
    }
    match mode {
        RepeatMode::First => match t.first_course_matching(r, used) {
            Some(x) => vec![x],
            None => Vec::new(),
        },
        RepeatMode::Last => match t.last_course_matching(r, used) {
            Some(x) => vec![x],
            None => Vec::new(),
        },
        RepeatMode::All => t.all_courses_matching(r, used),
    }
}

fn these_courses_exec(
    courses: &Vec<CourseRule>,
    mode: RepeatMode,
    t: &Transcript,
    used: &ReservationLedger,
) -> (r: Vec<Reservation>)
    requires
        used.wf(),
    ensures
        r@ == these_courses(courses@, mode, t@, used@, courses@.len() as int).0,
{
    let mut out: Vec<Reservation> = Vec::new();
    let mut scratch = used.copy();
    let mut k: usize = 0;
    while k < courses.len()
        invariant
            0 <= k <= courses.len(),
            scratch.wf(),
            (out@, scratch@) == these_courses(courses@, mode, t@, used@, k as int),
        decreases courses.len() - k,
    {
        let picked = pick_exec(t, &courses[k], mode, &scratch);
        append(&mut out, &picked);
        scratch.reserve_all(&picked, t);
        k = k + 1;
    }
    out
}

fn requirements_pool_exec(refs: &Vec<RequirementRef>, ctx: &Context) -> (r: Result<
    Vec<Reservation>,
    AuditError,
>)
    ensures
        match requirements_pool(refs@, ctx@.requirements, refs@.len() as int) {
            Ok(p) => r.is_ok() && r.unwrap()@ == p,
            Err(e) => r == Err::<Vec<Reservation>, AuditError>(e),
        },
{
    let mut out: Vec<Reservation> = Vec::new();
    let mut k: usize = 0;
    while k < refs.len()
        invariant
            0 <= k <= refs.len(),
            requirements_pool(refs@, ctx@.requirements, k as int) == Ok::<
                Seq<Reservation>,
                AuditError,
            >(out@),
        decreases refs.len() - k,
    {
        match ctx.find_requirement(&refs[k].name) {
            Some(j) => {
                append(&mut out, &ctx.requirements[j].result.claimed);
            },
            None => {
                if !refs[k].optional {
                    proof {
                        lemma_requirements_pool_error_stays(
                            refs@,
                            ctx@.requirements,
                            k + 1,
                            refs@.len() as int,
                        );
                    }
                    return Err(AuditError::UnknownRequirement);
                }
            },
        }
        k = k + 1;
    }
    Ok(out)
}

/// The candidates of a course source, skipping pairings in `used`.
pub fn source_pool_exec(g: &Given, ctx: &Context, used: &ReservationLedger) -> (r: Result<
    Vec<Reservation>,
    AuditError,
>)
    requires
        used.wf(),
    ensures
        match source_pool(*g, ctx@, used@) {
            Ok(p) => r.is_ok() && r.unwrap()@ == p,
            Err(e) => r == Err::<Vec<Reservation>, AuditError>(e),
        },
{
    match g {
        Given::AllCourses => Ok(whole_courses_exec(&ctx.transcript, used)),
        Given::TheseCourses { courses, repeats } => Ok(
            these_courses_exec(courses, *repeats, &ctx.transcript, used),
        ),
        Given::TheseRequirements { requirements } => requirements_pool_exec(requirements, ctx),
        Given::NamedVariable { save } => match ctx.find_variable(save) {
            Some(j) => Ok(unreserved_exec(&ctx.variables[j].pool, &ctx.transcript, used)),
            None => Err(AuditError::UndefinedVariable),
        },
        _ => Err(AuditError::WhatMismatch),
    }
}

/// The pairings of `pool` whose transcript entry passes `filter`.
pub fn keep_passing_exec(pool: &Vec<Reservation>, t: &Transcript, filter: &Option<Clause>) -> (r: Vec<
    Reservation,
>)
    ensures
        r@ == keep_passing(pool@, t@, *filter, pool@.len() as int),
        in_transcript(r@, t@.len() as int),
{
    let mut out: Vec<Reservation> = Vec::new();
    let mut i: usize = 0;
    while i < pool.len()
        invariant
            0 <= i <= pool.len(),
            out@ == keep_passing(pool@, t@, *filter, i as int),
            in_transcript(out@, t@.len() as int),
        decreases pool.len() - i,
    {
        let x = pool[i];
        if x.course < t.courses.len() {
            let c = &t.courses[x.course];
            assert(t@[x.course as int] == c@);
            let pass = match filter {
                Some(f) => f.matches_course(c),
                None => true,
            };
            if pass {
                out.push(x);
            }
        }
        i = i + 1;
    }
    out
}

fn push_new(acc: &mut Vec<String>, s: &String)
    ensures
        texts(final(acc)@) == add_new(texts(old(acc)@), s@),
{
    if !holds_text(acc, s) {
        acc.push(s.clone());
        assert(texts(acc@) =~= texts(old(acc)@).push(s@));
    }
}

fn push_all_new(acc: &mut Vec<String>, xs: &Vec<String>)
    ensures
        texts(final(acc)@) == add_all_new(texts(old(acc)@), texts(xs@), xs@.len() as int),
{
    let mut j: usize = 0;
    while j < xs.len()
        invariant
            0 <= j <= xs.len(),
            texts(acc@) == add_all_new(texts(old(acc)@), texts(xs@), j as int),
        decreases xs.len() - j,
    {
        push_new(acc, &xs[j]);
        j = j + 1;
    }
}

fn limit_once_exec(pool: &Vec<Reservation>, t: &Transcript, lim: &Limiter) -> (r: Vec<Reservation>)
    requires
        in_transcript(pool@, t@.len() as int),
    ensures
        r@ == limit_once(pool@, t@, *lim, pool@.len() as int).0,
        in_transcript(r@, t@.len() as int),
{
    let mut out: Vec<Reservation> = Vec::new();
    let mut seen: u64 = 0;
    let mut i: usize = 0;
    while i < pool.len()
        invariant
            0 <= i <= pool.len(),
            in_transcript(pool@, t@.len() as int),
            (out@, seen as nat) == limit_once(pool@, t@, *lim, i as int),
            in_transcript(out@, t@.len() as int),
            seen <= lim.at_most,
        decreases pool.len() - i,
    {
        let x = pool[i];
        let c = &t.courses[x.course];
        assert(t@[x.course as int] == c@);
        if lim.filter.matches_course(c) {
            if seen < lim.at_most {
                out.push(x);
                seen = seen + 1;
            }
        } else {
            out.push(x);
        }
        i = i + 1;
    }
    out
}

/// `pool` under the rule's limiters, if it has any.
pub fn limited_exec(pool: Vec<Reservation>, t: &Transcript, limit: &Option<Vec<Limiter>>) -> (r: Vec<
    Reservation,
>)
    requires
        in_transcript(pool@, t@.len() as int),
    ensures
        r@ == limited(pool@, t@, *limit),
        in_transcript(r@, t@.len() as int),
{
    match limit {
        None => pool,
        Some(ls) => {
            let mut cur = pool;
            let mut k: usize = 0;
            while k < ls.len()
                invariant
                    0 <= k <= ls.len(),
                    cur@ == apply_limits(pool@, t@, ls@, k as int),
                    in_transcript(cur@, t@.len() as int),
                decreases ls.len() - k,
            {
                cur = limit_once_exec(&cur, t, &ls[k]);
                k = k + 1;
            }
            cur
        },
    }
}

/// Derives the quantity `what` from the filtered candidates; see `quantity`.
pub fn quantity_exec(what: What, kept: &Vec<Reservation>, t: &Transcript) -> (r: (u128, u64))
    requires
        in_transcript(kept@, t@.len() as int),
    ensures
        r.0 as int == quantity(what, kept@, t@).0,
        r.1 as int == quantity(what, kept@, t@).1,
{
    let n = kept.len();
    proof {
        lemma_distinct_counts(kept@, t@);
    }
    match what {
        What::Courses => (n as u128, n as u64),
        What::DistinctCourses => {
            let mut acc: Vec<String> = Vec::new();
            let mut i: usize = 0;
            while i < n
                invariant
                    0 <= i <= n,
                    n == kept@.len(),
                    in_transcript(kept@, t@.len() as int),
                    texts(acc@) == distinct_codes(kept@, t@, i as int),
                decreases n - i,
            {
                let c = &t.courses[kept[i].course];
                assert(t@[kept@[i as int].course as int] == c@);
                push_new(&mut acc, &c.course);
                i = i + 1;
            }
            (acc.len() as u128, n as u64)
        },
        What::Terms => {
            let mut acc: Vec<String> = Vec::new();
            let mut i: usize = 0;
            while i < n
                invariant
                    0 <= i <= n,
                    n == kept@.len(),
                    in_transcript(kept@, t@.len() as int),
                    texts(acc@) == distinct_terms(kept@, t@, i as int),
                decreases n - i,
            {
                let c = &t.courses[kept[i].course];
                assert(t@[kept@[i as int].course as int] == c@);
                push_new(&mut acc, &c.term);
                i = i + 1;
            }
            (acc.len() as u128, n as u64)
        },
        What::Departments => {
            let mut acc: Vec<String> = Vec::new();
            let mut i: usize = 0;
            while i < n
                invariant
                    0 <= i <= n,
                    n == kept@.len(),
                    in_transcript(kept@, t@.len() as int),
                    texts(acc@) == distinct_departments(kept@, t@, i as int),
                decreases n - i,
            {
                let c = &t.courses[kept[i].course];
                assert(t@[kept@[i as int].course as int] == c@);
                push_all_new(&mut acc, &c.departments);
                i = i + 1;
            }
            (acc.len() as u128, n as u64)
        },
        What::Credits => {
            let mut total: u128 = 0;
            let mut i: usize = 0;
            while i < n
                invariant
                    0 <= i <= n,
                    n == kept@.len(),
                    in_transcript(kept@, t@.len() as int),
                    total as int == credit_total(kept@, t@, i as int),
                    total <= i * 0xffff_ffff_ffff_ffffu128,
                decreases n - i,
            {
                let c = &t.courses[kept[i].course];
                assert(t@[kept@[i as int].course as int] == c@);
                total = total + c.credits as u128;
                i = i + 1;
            }
            (total, n as u64)
        },
        What::Grades => {
            let mut total: u128 = 0;
            let mut graded: u64 = 0;
            let mut i: usize = 0;
            while i < n
                invariant
                    0 <= i <= n,
                    n == kept@.len(),
                    in_transcript(kept@, t@.len() as int),
                    total as int == grade_total(kept@, t@, i as int),
                    graded as int == graded_count(kept@, t@, i as int),
                    total <= i * 0xffff_ffff_ffff_ffffu128,
                    graded <= i,
                decreases n - i,
            {
                let c = &t.courses[kept[i].course];
                assert(t@[kept@[i as int].course as int] == c@);
                match c.grade_points {
                    Some(g) => {
                        total = total + g as u128;
                        graded = graded + 1;
                    },
                    None => {},
                }
                i = i + 1;
            }
            (total, graded)
        },
        _ => (0, 0),
    }
}

/// How many of `n` recitals pass the filter: a recital has none of the
/// attributes that a clause tests, so it passes only a clause without entries.
pub open spec fn recitals_passing(n: int, filter: Option<Clause>) -> int {
    match filter {
        Some(f) => if f@.len() == 0 {
            n
        } else {
            0
        },
        None => n,
    }
}

pub fn recitals_passing_exec(n: usize, filter: &Option<Clause>) -> (r: u64)
    ensures
        r as int == recitals_passing(n as int, *filter),
{
    match filter {
        Some(f) => if f.entries.len() == 0 {
            n as u64
        } else {
            0
        },
        None => n as u64,
    }
}

/// How many declared areas pass the filter.
pub fn areas_passing_exec(areas: &Vec<DeclaredArea>, filter: &Option<Clause>) -> (r: u64)
    ensures
        r as int == areas_passing(areas@, *filter, areas@.len() as int),
{
    let mut count: u64 = 0;
    let mut i: usize = 0;
    while i < areas.len()
        invariant
            0 <= i <= areas.len(),
            count as int == areas_passing(areas@, *filter, i as int),
            count <= i,
        decreases areas.len() - i,
    {
        let pass = match filter {
            Some(f) => f.matches_area(&areas[i]),
            None => true,
        };
        if pass {
            count = count + 1;
        }
        i = i + 1;
    }
    count
}

} // verus!
