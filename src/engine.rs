use vstd::prelude::*;

use crate::action::action_holds;
use crate::context::{find_named, Context, Env};
use crate::course::CourseRule;
use crate::ledger::{
    pairing_of, pairings_of, with_reservation, with_reservations, Pairing, Reservation,
    ReservationLedger,
};
use crate::pool::{
    append, areas_passing, areas_passing_exec, keep_passing, keep_passing_exec, limited,
    limited_exec, quantity,
    quantity_exec, recitals_passing, recitals_passing_exec, source_pool, source_pool_exec,
};
use crate::result::{
    lemma_views_push, views, AuditError, DetailsView, ResultView, RuleResult, RuleResultDetails,
    RuleStatus,
};
use crate::rules::count_of::{self, spec_needed, Surplus};
use crate::rules::given::{self, spec_is_well_formed, what_fits_source, Given};
use crate::rules::{RequirementRef, Rule};
use crate::transcript::first_available;

verus! {

pub open spec fn status_of(pass: bool) -> RuleStatus {
    if pass {
        RuleStatus::Pass
    } else {
        RuleStatus::Fail
    }
}

/// The error for a given-rule whose parts do not fit together.
pub open spec fn shape_error(g: given::Rule) -> AuditError {
    if !what_fits_source(g) {
        AuditError::WhatMismatch
    } else {
        AuditError::UnsupportedAction
    }
}

/// A given-rule: resolve the source, filter and limit it, derive the quantity
/// and test it; on a pass the remaining candidates are claimed and reserved,
/// on a fail nothing is.
pub open spec fn eval_given(g: given::Rule, env: Env, used: Seq<Pairing>) -> Result<
    (ResultView, Seq<Pairing>),
    AuditError,
> {
    if !spec_is_well_formed(g) {
        Err(shape_error(g))
    } else if g.given is AreasOfStudy {
        let n = areas_passing(env.areas, g.filter, env.areas.len() as int);
        let pass = action_holds(g.action, n, n);
        Ok(
            (
                ResultView {
                    status: status_of(pass),
                    claimed: Seq::empty(),
                    details: DetailsView::Given { amount: n, of: n },
                },
                used,
            ),
        )
    } else if g.given is Performances || g.given is Attendances {
        let n = recitals_passing(
            if g.given is Performances {
                env.performances.len() as int
            } else {
                env.attendances.len() as int
            },
            g.filter,
        );
        let pass = action_holds(g.action, n, n);
        Ok(
            (
                ResultView {
                    status: status_of(pass),
                    claimed: Seq::empty(),
                    details: DetailsView::Given { amount: n, of: n },
                },
                used,
            ),
        )
    } else {
        match source_pool(g.given, env, used) {
            Err(e) => Err(e),
            Ok(pool) => {
                let kept = limited(
                    keep_passing(pool, env.transcript, g.filter, pool.len() as int),
                    env.transcript,
                    g.limit,
                );
                let (amount, of) = quantity(g.what, kept, env.transcript);
                let pass = action_holds(g.action, amount, of);
                Ok(
                    (
                        ResultView {
                            status: status_of(pass),
                            claimed: if pass {
                                kept
                            } else {
                                Seq::empty()
                            },
                            details: DetailsView::Given { amount, of },
                        },
                        if pass {
                            with_reservations(used, pairings_of(kept, env.transcript))
                        } else {
                            used
                        },
                    ),
                )
            },
        }
    }
}

pub open spec fn count_passed(vs: Seq<ResultView>) -> nat
    decreases vs.len(),
{
    if vs.len() == 0 {
        0
    } else {
        count_passed(vs.drop_last()) + if vs.last().status == RuleStatus::Pass {
            1nat
        } else {
            0nat
        }
    }
}

pub open spec fn claimed_of(vs: Seq<ResultView>) -> Seq<Reservation>
    decreases vs.len(),
{
    if vs.len() == 0 {
        Seq::empty()
    } else {
        claimed_of(vs.drop_last()) + vs.last().claimed
    }
}

/// Under `Surplus::Ignore`, children after the count is met are not evaluated.
pub open spec fn stops_early(c: count_of::Rule) -> bool {
    c.surplus == Some(Surplus::Ignore)
}

/// The first `k` children of a count-of rule, evaluated left to right, each
/// seeing the reservations of those before it.
pub open spec fn run_children(
    c: count_of::Rule,
    need: nat,
    env: Env,
    used: Seq<Pairing>,
    k: int,
) -> Result<(Seq<ResultView>, Seq<Pairing>), AuditError>
    decreases c, 0int, k,
{
    if k <= 0 || k > c.of.len() {
        Ok((Seq::empty(), used))
    } else {
        match run_children(c, need, env, used, k - 1) {
            Err(e) => Err(e),
            Ok((vs, u)) => if stops_early(c) && count_passed(vs) >= need {
                Ok((vs, u))
            } else {
                match eval(c.of[k - 1], env, u) {
                    Err(e) => Err(e),
                    Ok((v, u2)) => Ok((vs.push(v), u2)),
                }
            },
        }
    }
}

/// The verdict for `rule` and the reservations after it, starting from `used`.
///
/// A reference to a requirement takes that requirement's verdict; one to a
/// requirement that was not evaluated is an error, unless the reference is
/// optional, in which case it passes.
pub open spec fn eval(rule: Rule, env: Env, used: Seq<Pairing>) -> Result<
    (ResultView, Seq<Pairing>),
    AuditError,
>
    decreases rule, 1int, 0int,
{
    match rule {
        Rule::Course(cr) => match first_available(env.transcript, cr, used, 0) {
            Some(x) => Ok(
                (
                    ResultView {
                        status: RuleStatus::Pass,
                        claimed: seq![x],
                        details: DetailsView::Course { matched: Some(x) },
                    },
                    with_reservation(used, pairing_of(env.transcript, x)),
                ),
            ),
            None => Ok(
                (
                    ResultView {
                        status: RuleStatus::Fail,
                        claimed: Seq::empty(),
                        details: DetailsView::Course { matched: None },
                    },
                    used,
                ),
            ),
        },
        Rule::Requirement(rr) => match find_named(env.requirements, rr.name@, 0) {
            Some(v) => Ok(
                (
                    ResultView {
                        status: v.status,
                        claimed: v.claimed,
                        details: DetailsView::Requirement { name: rr.name@, found: true },
                    },
                    used,
                ),
            ),
            None => if rr.optional {
                Ok(
                    (
                        ResultView {
                            status: RuleStatus::Pass,
                            claimed: Seq::empty(),
                            details: DetailsView::Requirement { name: rr.name@, found: false },
                        },
                        used,
                    ),
                )
            } else {
                Err(AuditError::UnknownRequirement)
            },
        },
        Rule::CountOf(c) => match spec_needed(c.count, c.of@.len()) {
            None => Err(AuditError::CounterOutOfRange),
            Some(need) => match run_children(c, need, env, used, c.of.len() as int) {
                Err(e) => Err(e),
                Ok((vs, u)) => Ok(
                    (
                        ResultView {
                            status: status_of(count_passed(vs) >= need),
                            claimed: claimed_of(vs),
                            details: DetailsView::CountOf {
                                children: vs,
                                passed: count_passed(vs),
                                needed: need,
                            },
                        },
                        u,
                    ),
                ),
            },
        },
        Rule::Given(g) => eval_given(g, env, used),
    }
}

/// `r` and `after` are what the evaluation described by `s` gives.
pub open spec fn outcome_matches(
    s: Result<(ResultView, Seq<Pairing>), AuditError>,
    r: Result<RuleResult, AuditError>,
    after: Seq<Pairing>,
) -> bool {
    match s {
        Ok((v, u)) => r.is_ok() && r.unwrap()@ == v && after == u,
        Err(e) => r == Err::<RuleResult, AuditError>(e),
    }
}

pub proof fn lemma_run_children_error_stays(
    c: count_of::Rule,
    need: nat,
    env: Env,
    used: Seq<Pairing>,
    k: int,
    m: int,
)
    requires
        0 < k <= m <= c.of.len(),
        run_children(c, need, env, used, k) is Err,
    ensures
        run_children(c, need, env, used, m) == run_children(c, need, env, used, k),
    decreases m - k,
{
    if m > k {
        lemma_run_children_error_stays(c, need, env, used, k, m - 1);
    }
}

/// Evaluates a given-rule; see `eval_given`.
pub fn eval_given_rule(g: &given::Rule, ctx: &Context, ledger: &mut ReservationLedger) -> (r: Result<
    RuleResult,
    AuditError,
>)
    requires
        old(ledger).wf(),
    ensures
        final(ledger).wf(),
        outcome_matches(eval_given(*g, ctx@, old(ledger)@), r, final(ledger)@),
{
    if !g.is_well_formed() {
        if !g.what_fits_source() {
            return Err(AuditError::WhatMismatch);
        } else {
            return Err(AuditError::UnsupportedAction);
        }
    }
    if g.reads_areas() {
        let n = areas_passing_exec(&ctx.areas, &g.filter);
        let pass = g.action.evaluate(n as u128, n);
        let status = if pass {
            RuleStatus::Pass
        } else {
            RuleStatus::Fail
        };
        return Ok(
            RuleResult {
                status,
                claimed: Vec::new(),
                details: RuleResultDetails::Given { amount: n as u128, of: n },
            },
        );
    }
    let recitals = match g.given {
        Given::Performances => Some(ctx.performances.len()),
        Given::Attendances => Some(ctx.attendances.len()),
        _ => None,
    };
    if let Some(count) = recitals {
        proof {
            assert(crate::course::texts(ctx.performances@).len() == ctx.performances@.len());
            assert(crate::course::texts(ctx.attendances@).len() == ctx.attendances@.len());
        }
        let n = recitals_passing_exec(count, &g.filter);
        let pass = g.action.evaluate(n as u128, n);
        let status = if pass {
            RuleStatus::Pass
        } else {
            RuleStatus::Fail
        };
        return Ok(
            RuleResult {
                status,
                claimed: Vec::new(),
                details: RuleResultDetails::Given { amount: n as u128, of: n },
            },
        );
    }
    let pool = match source_pool_exec(&g.given, ctx, ledger) {
        Ok(p) => p,
        Err(e) => {
            return Err(e);
        },
    };
    let passing = keep_passing_exec(&pool, &ctx.transcript, &g.filter);
    let kept = limited_exec(passing, &ctx.transcript, &g.limit);
    let (amount, of) = quantity_exec(g.what, &kept, &ctx.transcript);
    let pass = g.action.evaluate(amount, of);
    if pass {
        ledger.reserve_all(&kept, &ctx.transcript);
        Ok(
            RuleResult {
                status: RuleStatus::Pass,
                claimed: kept,
                details: RuleResultDetails::Given { amount, of },
            },
        )
    } else {
        Ok(
            RuleResult {
                status: RuleStatus::Fail,
                claimed: Vec::new(),
                details: RuleResultDetails::Given { amount, of },
            },
        )
    }
}

fn eval_course(cr: &CourseRule, ctx: &Context, ledger: &mut ReservationLedger) -> (r: Result<
    RuleResult,
    AuditError,
>)
    requires
        old(ledger).wf(),
    ensures
        final(ledger).wf(),
        outcome_matches(eval(Rule::Course(*cr), ctx@, old(ledger)@), r, final(ledger)@),
{
    match ctx.transcript.first_course_matching(cr, ledger) {
        Some(x) => {
            proof {
                assert(ctx.transcript@.len() == ctx.transcript.courses.len());
                crate::transcript::lemma_first_in_range(ctx@.transcript, *cr, ledger@, 0);
            }
            assert(ctx@.transcript[x.course as int] == ctx.transcript.courses@[x.course as int]@);
            ledger.reserve(&ctx.transcript.courses[x.course], x.parts);
            let mut claimed: Vec<Reservation> = Vec::new();
            claimed.push(x);
            assert(claimed@ == seq![x]);
            Ok(
                RuleResult {
                    status: RuleStatus::Pass,
                    claimed,
                    details: RuleResultDetails::Course { matched: Some(x) },
                },
            )
        },
        None => Ok(
            RuleResult {
                status: RuleStatus::Fail,
                claimed: Vec::new(),
                details: RuleResultDetails::Course { matched: None },
            },
        ),
    }
}

fn eval_requirement(rr: &RequirementRef, ctx: &Context, ledger: &ReservationLedger) -> (r: Result<
    RuleResult,
    AuditError,
>)
    ensures
        outcome_matches(eval(Rule::Requirement(*rr), ctx@, ledger@), r, ledger@),
{
    match ctx.find_requirement(&rr.name) {
        Some(j) => {
            let found = &ctx.requirements[j].result;
            let mut claimed: Vec<Reservation> = Vec::new();
            append(&mut claimed, &found.claimed);
            Ok(
                RuleResult {
                    status: found.status,
                    claimed,
                    details: RuleResultDetails::Requirement { name: rr.name.clone(), found: true },
                },
            )
        },
        None => if rr.optional {
            Ok(
                RuleResult {
                    status: RuleStatus::Pass,
                    claimed: Vec::new(),
                    details: RuleResultDetails::Requirement { name: rr.name.clone(), found: false },
                },
            )
        } else {
            Err(AuditError::UnknownRequirement)
        },
    }
}

fn eval_count_of(c: &count_of::Rule, ctx: &Context, ledger: &mut ReservationLedger) -> (r: Result<
    RuleResult,
    AuditError,
>)
    requires
        old(ledger).wf(),
    ensures
        final(ledger).wf(),
        outcome_matches(eval(Rule::CountOf(*c), ctx@, old(ledger)@), r, final(ledger)@),
    decreases c, 1int,
{
    let need = match c.needed() {
        Some(n) => n,
        None => {
            return Err(AuditError::CounterOutOfRange);
        },
    };
    match eval_children(c, need, ctx, ledger) {
        Ok((children, passed, claimed)) => {
            let status = if passed >= need {
                RuleStatus::Pass
            } else {
                RuleStatus::Fail
            };
            Ok(
                RuleResult {
                    status,
                    claimed,
                    details: RuleResultDetails::CountOf { children, passed, needed: need },
                },
            )
        },
        Err(e) => Err(e),
    }
}

/// Evaluates one rule node against the context, committing to `ledger` the
/// pairings that passing nodes claim; see `eval`.
pub fn eval_rule(rule: &Rule, ctx: &Context, ledger: &mut ReservationLedger) -> (r: Result<
    RuleResult,
    AuditError,
>)
    requires
        old(ledger).wf(),
    ensures
        final(ledger).wf(),
        outcome_matches(eval(*rule, ctx@, old(ledger)@), r, final(ledger)@),
    decreases rule, 2int,
{
    match rule {
        Rule::Course(cr) => eval_course(cr, ctx, ledger),
        Rule::Requirement(rr) => eval_requirement(rr, ctx, ledger),
        Rule::CountOf(c) => eval_count_of(c, ctx, ledger),
        Rule::Given(g) => eval_given_rule(g, ctx, ledger),
    }
}

/// Evaluates the children of a count-of rule left to right; see
/// `run_children`. Returns the children's results, how many passed, and the
/// pairings that they claimed.
fn eval_children(c: &count_of::Rule, need: u64, ctx: &Context, ledger: &mut ReservationLedger) -> (r:
    Result<(Vec<RuleResult>, u64, Vec<Reservation>), AuditError>)
    requires
        old(ledger).wf(),
    ensures
        final(ledger).wf(),
        match run_children(*c, need as nat, ctx@, old(ledger)@, c.of@.len() as int) {
            Ok((vs, u)) => r.is_ok() && views(r.unwrap().0@) == vs && r.unwrap().1 as nat
                == count_passed(vs) && r.unwrap().2@ == claimed_of(vs) && final(ledger)@ == u,
            Err(e) => r == Err::<(Vec<RuleResult>, u64, Vec<Reservation>), AuditError>(e),
        },
    decreases c, 0int,
{
    let stop = match c.surplus {
        Some(Surplus::Ignore) => true,
        _ => false,
    };
    let ghost start = old(ledger)@;
    let ghost env = ctx@;
    let mut children: Vec<RuleResult> = Vec::new();
    let mut claimed: Vec<Reservation> = Vec::new();
    let mut passed: u64 = 0;
    let mut failure: Option<AuditError> = None;
    let mut k: usize = 0;
    while k < c.of.len() && failure.is_none()
        invariant
            0 <= k <= c.of.len(),
            env == ctx@,
            start == old(ledger)@,
            stop == stops_early(*c),
            ledger.wf(),
            failure.is_none() ==> run_children(*c, need as nat, env, start, k as int) == Ok::<
                (Seq<ResultView>, Seq<Pairing>),
                AuditError,
            >((views(children@), ledger@)),
            failure.is_some() ==> run_children(*c, need as nat, env, start, c.of@.len() as int)
                == Err::<(Seq<ResultView>, Seq<Pairing>), AuditError>(failure.unwrap()),
            passed as nat == count_passed(views(children@)),
            claimed@ == claimed_of(views(children@)),
            passed <= children@.len() <= k,
        decreases c.of.len() - k,
    {
        if !(stop && passed >= need) {
            proof {
                assert(decreases_to!(c.of => c.of[k as int]));
            }
            let ghost before = views(children@);
            match eval_rule(&c.of[k], ctx, ledger) {
                Err(e) => {
                    proof {
                        lemma_run_children_error_stays(
                            *c,
                            need as nat,
                            env,
                            start,
                            k + 1,
                            c.of.len() as int,
                        );
                    }
                    failure = Some(e);
                },
                Ok(v) => {
                    if v.passed() {
                        passed = passed + 1;
                    }
                    append(&mut claimed, &v.claimed);
                    proof {
                        lemma_views_push(children@, v);
                        assert(views(children@.push(v)).drop_last() == before);
                    }
                    children.push(v);
                },
            }
        }
        k = k + 1;
    }
    match failure {
        Some(e) => Err(e),
        None => Ok((children, passed, claimed)),
    }
}

} // verus!
