use vstd::prelude::*;

use crate::action::Action;
use crate::audit::{audit_outcome, spec_audit, AreaOfStudy, AuditReport};
use crate::context::Env;
use crate::course::{CourseRule, CourseView, MatchedParts};
use crate::engine::{count_passed, eval, eval_given, run_children, stops_early};
use crate::filter::{course_passes, Clause, ClauseEntry};
use crate::ledger::{
    lemma_with_reservation, lemma_with_reservations_grows, pairing_of, pairings_of, Pairing,
    Reservation,
};
use crate::pool::{keep_passing, passes_filter};
use crate::result::{AuditError, RuleStatus};
use crate::rules::count_of::{self, Counter};
use crate::rules::given::{self, Given, RepeatMode, What};
use crate::rules::Rule;
use crate::transcript::{available, first_available, last_available};

verus! {

/// Two audits of the same student record and area of study give
/// the same outcome: the same error, or reports with equal verdict trees,
/// requirement verdicts and ledgers.
pub proof fn audit_is_deterministic(
    student: Env,
    area: AreaOfStudy,
    first: Result<AuditReport, AuditError>,
    second: Result<AuditReport, AuditError>,
)
    requires
        audit_outcome(spec_audit(student, area), first),
        audit_outcome(spec_audit(student, area), second),
    ensures
        first.is_ok() == second.is_ok(),
        first.is_ok() ==> first.unwrap()@ == second.unwrap()@,
        first.is_err() ==> first == second,
{
}

/// The ledger that an audit hands back holds no pairing twice.
pub proof fn audit_ledger_has_no_duplicates(
    student: Env,
    area: AreaOfStudy,
    report: Result<AuditReport, AuditError>,
)
    requires
        audit_outcome(spec_audit(student, area), report),
        report.is_ok(),
    ensures
        report.unwrap()@.ledger.no_duplicates(),
{
}

/// `b` starts with `a`.
pub open spec fn extends(a: Seq<Pairing>, b: Seq<Pairing>) -> bool {
    a.len() <= b.len() && forall|i: int| 0 <= i < a.len() ==> #[trigger] b[i] == a[i]
}

proof fn lemma_prefix_extends(a: Seq<Pairing>, b: Seq<Pairing>)
    requires
        a.is_prefix_of(b),
    ensures
        extends(a, b),
{
    assert forall|i: int| 0 <= i < a.len() implies #[trigger] b[i] == a[i] by {
        assert(b.subrange(0, a.len() as int)[i] == b[i]);
    }
}

proof fn lemma_given_grows(g: given::Rule, env: Env, used: Seq<Pairing>)
    requires
        eval_given(g, env, used) is Ok,
    ensures
        extends(used, eval_given(g, env, used)->Ok_0.1),
        used.no_duplicates() ==> eval_given(g, env, used)->Ok_0.1.no_duplicates(),
        eval_given(g, env, used)->Ok_0.0.status == RuleStatus::Pass ==> forall|x: Reservation|
            #[trigger] eval_given(g, env, used)->Ok_0.0.claimed.contains(x) ==> eval_given(
                g,
                env,
                used,
            )->Ok_0.1.contains(pairing_of(env.transcript, x)),
{
    let (v, u) = eval_given(g, env, used)->Ok_0;
    let ps = pairings_of(v.claimed, env.transcript);
    if v.status == RuleStatus::Pass && !(g.given is AreasOfStudy) && !(g.given is Performances)
        && !(g.given is Attendances) {
        lemma_with_reservations_grows(used, ps);
        lemma_prefix_extends(used, u);
        assert forall|x: Reservation| #[trigger] v.claimed.contains(x) implies u.contains(
            pairing_of(env.transcript, x),
        ) by {
            let k = choose|k: int| 0 <= k < v.claimed.len() && v.claimed[k] == x;
            assert(ps[k] == pairing_of(env.transcript, x));
            assert(ps.contains(pairing_of(env.transcript, x)));
        }
    } else {
        assert(extends(used, u));
    }
}

proof fn lemma_eval_grows(rule: Rule, env: Env, used: Seq<Pairing>)
    requires
        eval(rule, env, used) is Ok,
    ensures
        extends(used, eval(rule, env, used)->Ok_0.1),
        used.no_duplicates() ==> eval(rule, env, used)->Ok_0.1.no_duplicates(),
    decreases rule, 1int, 0int,
{
    match rule {
        Rule::Course(cr) => {
            match first_available(env.transcript, cr, used, 0) {
                Some(x) => {
                    lemma_with_reservation(used, pairing_of(env.transcript, x));
                    lemma_prefix_extends(used, eval(rule, env, used)->Ok_0.1);
                },
                None => {},
            }
        },
        Rule::Requirement(_) => {},
        Rule::CountOf(c) => {
            let need = crate::rules::count_of::spec_needed(c.count, c.of@.len())->Some_0;
            lemma_children_grow(c, need, env, used, c.of.len() as int);
        },
        Rule::Given(g) => {
            lemma_given_grows(g, env, used);
        },
    }
}

proof fn lemma_children_grow(c: count_of::Rule, need: nat, env: Env, used: Seq<Pairing>, k: int)
    requires
        run_children(c, need, env, used, k) is Ok,
    ensures
        extends(used, run_children(c, need, env, used, k)->Ok_0.1),
        used.no_duplicates() ==> run_children(c, need, env, used, k)->Ok_0.1.no_duplicates(),
    decreases c, 0int, k,
{
    if k > 0 && k <= c.of.len() {
        lemma_children_grow(c, need, env, used, k - 1);
        let (vs, u) = run_children(c, need, env, used, k - 1)->Ok_0;
        if !(stops_early(c) && count_passed(vs) >= need) {
            assert(decreases_to!(c.of => c.of[k - 1]));
            lemma_eval_grows(c.of[k - 1], env, u);
        }
    }
}

/// Evaluating any rule only adds to the ledger: what was reserved stays, in
/// place, and a ledger without duplicates stays without duplicates.
pub proof fn evaluation_never_double_commits(rule: Rule, env: Env, used: Seq<Pairing>)
    requires
        used.no_duplicates(),
        eval(rule, env, used) is Ok,
    ensures
        extends(used, eval(rule, env, used)->Ok_0.1),
        eval(rule, env, used)->Ok_0.1.no_duplicates(),
{
    lemma_eval_grows(rule, env, used);
}

/// When a given-rule passes, every course that it counted is in the ledger
/// afterwards, with the parts it was matched through, and the ledger holds
/// each such pairing once.
pub proof fn passing_given_rule_reserves_its_pool(g: given::Rule, env: Env, used: Seq<Pairing>)
    requires
        used.no_duplicates(),
        eval_given(g, env, used) is Ok,
        eval_given(g, env, used)->Ok_0.0.status == RuleStatus::Pass,
    ensures
        forall|x: Reservation| #[trigger]
            eval_given(g, env, used)->Ok_0.0.claimed.contains(x) ==> eval_given(
                g,
                env,
                used,
            )->Ok_0.1.contains(pairing_of(env.transcript, x)),
        eval_given(g, env, used)->Ok_0.1.no_duplicates(),
{
    lemma_given_grows(g, env, used);
}

/// A count-of rule asking for `n` of its children passes exactly when at
/// least `n` of the evaluated children pass.
pub proof fn number_counter_passes_iff_enough_children_pass(
    c: count_of::Rule,
    env: Env,
    used: Seq<Pairing>,
    n: u64,
)
    requires
        c.count == Counter::Number(n),
        n <= c.of.len(),
        eval(Rule::CountOf(c), env, used) is Ok,
    ensures
        ({
            let v = eval(Rule::CountOf(c), env, used)->Ok_0.0;
            &&& v.details is CountOf
            &&& (v.status == RuleStatus::Pass <==> count_passed(v.details->CountOf_children)
                >= n)
        }),
{
}

proof fn lemma_children_same_rules(
    c1: count_of::Rule,
    c2: count_of::Rule,
    need: nat,
    env: Env,
    used: Seq<Pairing>,
    k: int,
)
    requires
        c1.of@ == c2.of@,
        c1.surplus == c2.surplus,
    ensures
        run_children(c1, need, env, used, k) == run_children(c2, need, env, used, k),
    decreases k,
{
    if k > 0 && k <= c1.of.len() {
        lemma_children_same_rules(c1, c2, need, env, used, k - 1);
        assert(c1.of[k - 1] == c2.of[k - 1]);
    }
}

/// `count: All` evaluates exactly as `count: Number(len)` over the same children.
pub proof fn all_counter_is_number_of_all(
    c1: count_of::Rule,
    c2: count_of::Rule,
    env: Env,
    used: Seq<Pairing>,
)
    requires
        c1.count == Counter::All,
        c2.count == Counter::Number(c1.of.len() as u64),
        c1.of@ == c2.of@,
        c1.surplus == c2.surplus,
    ensures
        eval(Rule::CountOf(c1), env, used) == eval(Rule::CountOf(c2), env, used),
{
    lemma_children_same_rules(c1, c2, c1.of.len() as nat, env, used, c1.of.len() as int);
}

/// `count: Any` evaluates exactly as `count: Number(1)` over the same
/// (non-empty) children.
pub proof fn any_counter_is_number_one(
    c1: count_of::Rule,
    c2: count_of::Rule,
    env: Env,
    used: Seq<Pairing>,
)
    requires
        c1.count == Counter::Any,
        c2.count == Counter::Number(1),
        c1.of.len() >= 1,
        c1.of@ == c2.of@,
        c1.surplus == c2.surplus,
    ensures
        eval(Rule::CountOf(c1), env, used) == eval(Rule::CountOf(c2), env, used),
{
    lemma_children_same_rules(c1, c2, 1, env, used, c1.of.len() as int);
}

/// A course that passes a clause with one more entry passes the clause.
pub proof fn extra_entry_narrows_course_match(
    entries: Seq<ClauseEntry>,
    extra: ClauseEntry,
    c: CourseView,
)
    requires
        course_passes(entries.push(extra), c),
    ensures
        course_passes(entries, c),
{
    assert forall|i: int| 0 <= i < entries.len() implies crate::filter::course_satisfies_entry(
        c,
        #[trigger] entries[i],
    ) by {
        assert(entries.push(extra)[i] == entries[i]);
    }
}

/// Adding an entry to a filter clause never lets more candidates through:
/// what the narrower clause keeps, the wider one keeps too, and no more of it.
pub proof fn extra_entry_narrows_pool(
    pool: Seq<Reservation>,
    t: Seq<CourseView>,
    wide: Clause,
    narrow: Clause,
    extra: ClauseEntry,
    n: int,
)
    requires
        narrow@ == wide@.push(extra),
    ensures
        keep_passing(pool, t, Some(narrow), n).len() <= keep_passing(pool, t, Some(wide), n).len(),
        forall|x: Reservation| #[trigger]
            keep_passing(pool, t, Some(narrow), n).contains(x) ==> keep_passing(
                pool,
                t,
                Some(wide),
                n,
            ).contains(x),
    decreases n,
{
    if n > 0 && n <= pool.len() {
        extra_entry_narrows_pool(pool, t, wide, narrow, extra, n - 1);
        let x = pool[n - 1];
        let a = keep_passing(pool, t, Some(narrow), n - 1);
        let b = keep_passing(pool, t, Some(wide), n - 1);
        if x.course < t.len() && passes_filter(Some(narrow), t[x.course as int]) {
            extra_entry_narrows_course_match(wide@, extra, t[x.course as int]);
            assert forall|y: Reservation| #[trigger] a.push(x).contains(y) implies b.push(x).contains(y) by {
                if y != x {
                    let k = choose|k: int| 0 <= k < a.push(x).len() && a.push(x)[k] == y;
                    assert(a[k] == y);
                    assert(a.contains(y));
                    let j = choose|j: int| 0 <= j < b.len() && b[j] == y;
                    assert(b.push(x)[j] == y);
                } else {
                    assert(b.push(x)[b.len() as int] == y);
                }
            }
        } else if x.course < t.len() && passes_filter(Some(wide), t[x.course as int]) {
            assert forall|y: Reservation| #[trigger] a.contains(y) implies b.push(x).contains(y) by {
                let j = choose|j: int| 0 <= j < b.len() && b[j] == y;
                assert(b.push(x)[j] == y);
            }
        }
    }
}

proof fn lemma_first_found(t: Seq<CourseView>, r: CourseRule, used: Seq<Pairing>, from: int)
    requires
        0 <= from,
    ensures
        first_available(t, r, used, from).is_some() <==> exists|i: int|
            from <= i < t.len() && #[trigger] available(t, r, used, i),
        first_available(t, r, used, from).is_some() ==> first_available(t, r, used, from)->Some_0.course
            < t.len(),
    decreases t.len() - from,
{
    if from < t.len() {
        lemma_first_found(t, r, used, from + 1);
        if !available(t, r, used, from) {
            assert forall|i: int| from <= i < t.len() && #[trigger] available(t, r, used, i) implies from
                + 1 <= i by {}
        }
    }
}

proof fn lemma_last_found(t: Seq<CourseView>, r: CourseRule, used: Seq<Pairing>, upto: int)
    requires
        upto <= t.len(),
    ensures
        last_available(t, r, used, upto).is_some() <==> exists|i: int|
            0 <= i < upto && #[trigger] available(t, r, used, i),
        last_available(t, r, used, upto).is_some() ==> last_available(t, r, used, upto)->Some_0.course
            < t.len(),
    decreases upto,
{
    if upto > 0 {
        lemma_last_found(t, r, used, upto - 1);
        if !available(t, r, used, upto - 1) {
            assert forall|i: int| 0 <= i < upto && #[trigger] available(t, r, used, i) implies i < upto
                - 1 by {}
        }
    }
}

proof fn lemma_kept_pass_filter(
    pool: Seq<Reservation>,
    t: Seq<CourseView>,
    filter: Option<Clause>,
    n: int,
)
    ensures
        forall|k: int|
            0 <= k < keep_passing(pool, t, filter, n).len() ==> {
                let x = #[trigger] keep_passing(pool, t, filter, n)[k];
                x.course < t.len() && passes_filter(filter, t[x.course as int])
            },
    decreases n,
{
    if n > 0 && n <= pool.len() {
        lemma_kept_pass_filter(pool, t, filter, n - 1);
        let rest = keep_passing(pool, t, filter, n - 1);
        let x = pool[n - 1];
        if x.course < t.len() && passes_filter(filter, t[x.course as int]) {
            assert forall|k: int| 0 <= k < rest.push(x).len() implies {
                let y = #[trigger] rest.push(x)[k];
                y.course < t.len() && passes_filter(filter, t[y.course as int])
            } by {
                if k < rest.len() {
                    assert(rest.push(x)[k] == rest[k]);
                }
            }
        }
    }
}

/// A given-rule over the whole transcript, without limiters, claims only
/// courses that pass its filter, and never reserves a course that fails it:
/// such a course, not reserved before, stays unreserved.
pub proof fn filtered_out_courses_stay_unreserved(g: given::Rule, env: Env, used: Seq<Pairing>)
    requires
        g.given is AllCourses,
        g.limit is None,
        eval_given(g, env, used) is Ok,
    ensures
        forall|k: int|
            0 <= k < eval_given(g, env, used)->Ok_0.0.claimed.len() ==> {
                let x = #[trigger] eval_given(g, env, used)->Ok_0.0.claimed[k];
                x.course < env.transcript.len() && passes_filter(g.filter, env.transcript[x.course as int])
            },
        forall|c: CourseView, parts: MatchedParts|
            !passes_filter(g.filter, c) && !used.contains((c, parts)) ==> !#[trigger] eval_given(
                g,
                env,
                used,
            )->Ok_0.1.contains((c, parts)),
{
    let t = env.transcript;
    let (v, u) = eval_given(g, env, used)->Ok_0;
    if given::spec_is_well_formed(g) {
        let pool = crate::pool::source_pool(g.given, env, used)->Ok_0;
        let kept = keep_passing(pool, t, g.filter, pool.len() as int);
        lemma_kept_pass_filter(pool, t, g.filter, pool.len() as int);
        if v.status == RuleStatus::Pass {
            let ps = pairings_of(kept, t);
            lemma_with_reservations_grows(used, ps);
            assert forall|c: CourseView, parts: MatchedParts|
                !passes_filter(g.filter, c) && !used.contains((c, parts)) implies !#[trigger] u.contains(
                (c, parts),
            ) by {
                if u.contains((c, parts)) {
                    assert(ps.contains((c, parts)));
                    let k = choose|k: int| 0 <= k < ps.len() && ps[k] == (c, parts);
                    assert(kept[k].course < t.len() && passes_filter(g.filter, t[kept[k].course as int]));
                }
            }
        }
    }
}

/// With the ledger keyed on courses, a transcript whose every course also
/// stands in a wider transcript offers no free match that the wider one lacks:
/// if the wider transcript has no unreserved match for a rule, neither has the
/// narrower one, and a course that the narrower one finds stands in the wider.
pub proof fn narrower_transcript_finds_no_more(
    wide: Seq<CourseView>,
    narrow: Seq<CourseView>,
    rule: CourseRule,
    used: Seq<Pairing>,
)
    requires
        forall|i: int| 0 <= i < narrow.len() ==> wide.contains(#[trigger] narrow[i]),
    ensures
        first_available(wide, rule, used, 0) is None ==> first_available(narrow, rule, used, 0) is None,
        first_available(narrow, rule, used, 0) matches Some(x) ==> x.course < narrow.len()
            && wide.contains(narrow[x.course as int]),
{
    lemma_first_found(wide, rule, used, 0);
    lemma_first_found(narrow, rule, used, 0);
    if first_available(narrow, rule, used, 0) is Some {
        let i = choose|i: int| 0 <= i < narrow.len() && #[trigger] available(narrow, rule, used, i);
        assert(wide.contains(narrow[i]));
        let j = choose|j: int| 0 <= j < wide.len() && wide[j] == narrow[i];
        assert(available(wide, rule, used, j));
    }
}

/// The given-rule over one listed course, counting courses with no filter
/// and no limit.
pub open spec fn single_course_rule(courses: Vec<CourseRule>, repeats: RepeatMode, action: Action) -> given::Rule {
    given::Rule {
        given: Given::TheseCourses { courses, repeats },
        limit: None,
        filter: None,
        what: What::Courses,
        action,
    }
}

/// Over a single listed course, taking its first occurrence or its last
/// gives the same verdict.
pub proof fn first_and_last_agree_on_one_course(
    courses: Vec<CourseRule>,
    action: Action,
    env: Env,
    used: Seq<Pairing>,
)
    requires
        courses.len() == 1,
    ensures
        eval_given(single_course_rule(courses, RepeatMode::First, action), env, used) is Ok
            <==> eval_given(single_course_rule(courses, RepeatMode::Last, action), env, used) is Ok,
        eval_given(single_course_rule(courses, RepeatMode::First, action), env, used) is Ok
            ==> eval_given(single_course_rule(courses, RepeatMode::First, action), env, used)->Ok_0.0.status
            == eval_given(single_course_rule(courses, RepeatMode::Last, action), env, used)->Ok_0.0.status,
{
    let t = env.transcript;
    let r = courses@[0];
    lemma_first_found(t, r, used, 0);
    lemma_last_found(t, r, used, t.len() as int);
    assert(crate::pool::these_courses(courses@, RepeatMode::First, t, used, 0) == (
    Seq::<Reservation>::empty(), used));
    assert(crate::pool::these_courses(courses@, RepeatMode::Last, t, used, 0) == (
    Seq::<Reservation>::empty(), used));
    let first = crate::pool::these_courses(courses@, RepeatMode::First, t, used, 1).0;
    let last = crate::pool::these_courses(courses@, RepeatMode::Last, t, used, 1).0;
    assert(first =~= crate::pool::option_seq(first_available(t, r, used, 0)));
    assert(last =~= crate::pool::option_seq(last_available(t, r, used, t.len() as int)));
    assert(first.len() == last.len());
    assert(keep_passing(first, t, None, first.len() as int).len() == first.len()) by {
        if first.len() == 1 {
            assert(first[0].course < t.len());
            assert(keep_passing(first, t, None, 0).len() == 0);
        }
    }
    assert(keep_passing(last, t, None, last.len() as int).len() == last.len()) by {
        if last.len() == 1 {
            assert(last[0].course < t.len());
            assert(keep_passing(last, t, None, 0).len() == 0);
        }
    }
}

} // verus!
