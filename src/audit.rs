use vstd::prelude::*;

use crate::context::{Context, Env, Variable};
use crate::course::texts;
use crate::engine::{eval, eval_rule};
use crate::filter::{Clause, DeclaredArea};
use crate::ledger::{Pairing, Reservation, ReservationLedger};
use crate::pool::{keep_passing, keep_passing_exec, source_pool, source_pool_exec};
use crate::result::{AuditError, RequirementResult, ResultView, RuleResult};
use crate::rules::given::Given;
use crate::rules::Rule;
use crate::transcript::Transcript;

verus! {

/// The student's record that an audit reads: the transcript, the declared
/// areas of study, and the recitals performed in and attended.
#[derive(Debug, PartialEq)]
pub struct Student {
    pub transcript: Transcript,
    pub areas: Vec<DeclaredArea>,
    pub performances: Vec<String>,
    pub attendances: Vec<String>,
}

impl Student {
    /// The record as an environment with nothing saved or evaluated yet.
    pub open spec fn view(&self) -> Env {
        Env {
            transcript: self.transcript@,
            areas: self.areas@,
            performances: texts(self.performances@),
            attendances: texts(self.attendances@),
            variables: Seq::empty(),
            requirements: Seq::empty(),
        }
    }
}

/// Declares a named subset: the candidates of `given`, filtered, saved under
/// `name` for later rules to read.
#[derive(Debug, PartialEq)]
pub struct SaveRule {
    pub name: String,
    pub given: Given,
    pub filter: Option<Clause>,
}

/// A named top-level requirement.
#[derive(Debug, PartialEq)]
pub struct Requirement {
    pub name: String,
    pub result: Rule,
}

/// A degree, major or minor: its saved subsets, its named requirements and
/// the rule that decides it.
///
/// Requirements are evaluated in the order listed, so the list is the
/// dependency order: a requirement may refer only to requirements listed
/// before it, and a reference to one listed later (or not at all) is
/// `AuditError::UnknownRequirement` unless it is optional.
#[derive(Debug, PartialEq)]
pub struct AreaOfStudy {
    pub saves: Vec<SaveRule>,
    pub requirements: Vec<Requirement>,
    pub result: Rule,
}

/// What an audit produces: the verdict for the area, one verdict per named
/// requirement, and the pairings committed along the way.
#[derive(Debug, PartialEq)]
pub struct AuditReport {
    pub result: RuleResult,
    pub requirements: Vec<RequirementResult>,
    pub ledger: ReservationLedger,
}

pub struct ReportView {
    pub result: ResultView,
    pub requirements: Seq<(Seq<char>, ResultView)>,
    pub ledger: Seq<Pairing>,
}

impl AuditReport {
    pub open spec fn view(&self) -> ReportView {
        ReportView {
            result: self.result@,
            requirements: self.requirements@.map_values(|r: RequirementResult| r@),
            ledger: self.ledger@,
        }
    }
}

/// The subsets saved by the first `k` declarations, each reading those
/// before it.
pub open spec fn run_saves(saves: Seq<SaveRule>, base: Env, k: int) -> Result<Seq<(Seq<char>, Seq<Reservation>)>, AuditError>
    decreases k,
{
    if k <= 0 || k > saves.len() {
        Ok(Seq::empty())
    } else {
        match run_saves(saves, base, k - 1) {
            Err(e) => Err(e),
            Ok(vars) => {
                let env = Env { variables: vars, requirements: Seq::empty(), ..base };
                match source_pool(saves[k - 1].given, env, Seq::empty()) {
                    Err(e) => Err(e),
                    Ok(p) => Ok(
                        vars.push(
                            (
                                saves[k - 1].name@,
                                keep_passing(p, base.transcript, saves[k - 1].filter, p.len() as int),
                            ),
                        ),
                    ),
                }
            },
        }
    }
}

/// The verdicts of the first `k` requirements, each evaluated after those
/// before it and able to refer to them, and the reservations after them.
pub open spec fn run_requirements(
    reqs: Seq<Requirement>,
    base: Env,
    vars: Seq<(Seq<char>, Seq<Reservation>)>,
    k: int,
) -> Result<(Seq<(Seq<char>, ResultView)>, Seq<Pairing>), AuditError>
    decreases k,
{
    if k <= 0 || k > reqs.len() {
        Ok((Seq::empty(), Seq::empty()))
    } else {
        match run_requirements(reqs, base, vars, k - 1) {
            Err(e) => Err(e),
            Ok((rs, u)) => {
                let env = Env { variables: vars, requirements: rs, ..base };
                match eval(reqs[k - 1].result, env, u) {
                    Err(e) => Err(e),
                    Ok((v, u2)) => Ok((rs.push((reqs[k - 1].name@, v)), u2)),
                }
            },
        }
    }
}

/// The whole audit: saves first, then the requirements in order, then the
/// area's own rule.
pub open spec fn spec_audit(student: Env, area: AreaOfStudy) -> Result<ReportView, AuditError> {
    match run_saves(area.saves@, student, area.saves@.len() as int) {
        Err(e) => Err(e),
        Ok(vars) => match run_requirements(
            area.requirements@,
            student,
            vars,
            area.requirements@.len() as int,
        ) {
            Err(e) => Err(e),
            Ok((rs, u)) => {
                let env = Env { variables: vars, requirements: rs, ..student };
                match eval(area.result, env, u) {
                    Err(e) => Err(e),
                    Ok((v, u2)) => Ok(ReportView { result: v, requirements: rs, ledger: u2 }),
                }
            },
        },
    }
}

/// `r` is what `spec_audit` describes.
pub open spec fn audit_outcome(s: Result<ReportView, AuditError>, r: Result<AuditReport, AuditError>) -> bool {
    match s {
        Ok(v) => r.is_ok() && r.unwrap()@ == v && r.unwrap().ledger.wf(),
        Err(e) => r == Err::<AuditReport, AuditError>(e),
    }
}

proof fn lemma_run_saves_error_stays(saves: Seq<SaveRule>, base: Env, k: int, m: int)
    requires
        0 < k <= m <= saves.len(),
        run_saves(saves, base, k) is Err,
    ensures
        run_saves(saves, base, m) == run_saves(saves, base, k),
    decreases m - k,
{
    if m > k {
        lemma_run_saves_error_stays(saves, base, k, m - 1);
    }
}

proof fn lemma_run_requirements_error_stays(
    reqs: Seq<Requirement>,
    base: Env,
    vars: Seq<(Seq<char>, Seq<Reservation>)>,
    k: int,
    m: int,
)
    requires
        0 < k <= m <= reqs.len(),
        run_requirements(reqs, base, vars, k) is Err,
    ensures
        run_requirements(reqs, base, vars, m) == run_requirements(reqs, base, vars, k),
    decreases m - k,
{
    if m > k {
        lemma_run_requirements_error_stays(reqs, base, vars, k, m - 1);
    }
}

/// The environment `e` with nothing saved or evaluated.
pub open spec fn record_of(e: Env) -> Env {
    Env { variables: Seq::empty(), requirements: Seq::empty(), ..e }
}

fn run_saves_exec(area: &AreaOfStudy, ctx: &mut Context) -> (r: Result<(), AuditError>)
    requires
        old(ctx).variables@.len() == 0,
        old(ctx).requirements@.len() == 0,
    ensures
        record_of(final(ctx)@) == record_of(old(ctx)@),
        final(ctx).requirements@.len() == 0,
        match run_saves(area.saves@, record_of(old(ctx)@), area.saves@.len() as int) {
            Ok(vars) => r.is_ok() && final(ctx)@.variables == vars,
            Err(e) => r == Err::<(), AuditError>(e),
        },
{
    let ghost base = record_of(ctx@);
    let empty = ReservationLedger::new();
    let mut failure: Option<AuditError> = None;
    let mut k: usize = 0;
    proof {
        assert(ctx@.variables =~= Seq::<(Seq<char>, Seq<Reservation>)>::empty());
    }
    while k < area.saves.len() && failure.is_none()
        invariant
            0 <= k <= area.saves.len(),
            record_of(ctx@) == base,
            base == record_of(old(ctx)@),
            ctx.requirements@.len() == 0,
            empty@ == Seq::<Pairing>::empty(),
            empty.wf(),
            failure.is_none() ==> run_saves(area.saves@, base, k as int) == Ok::<
                Seq<(Seq<char>, Seq<Reservation>)>,
                AuditError,
            >(ctx@.variables),
            failure.is_some() ==> run_saves(area.saves@, base, area.saves@.len() as int) == Err::<
                Seq<(Seq<char>, Seq<Reservation>)>,
                AuditError,
            >(failure.unwrap()),
        decreases area.saves.len() - k,
    {
        let save = &area.saves[k];
        proof {
            assert(ctx@.requirements =~= Seq::<(Seq<char>, ResultView)>::empty());
            assert(ctx@ == Env { variables: ctx@.variables, requirements: Seq::empty(), ..base });
        }
        match source_pool_exec(&save.given, ctx, &empty) {
            Err(e) => {
                proof {
                    lemma_run_saves_error_stays(area.saves@, base, k + 1, area.saves@.len() as int);
                }
                failure = Some(e);
            },
            Ok(p) => {
                let kept = keep_passing_exec(&p, &ctx.transcript, &save.filter);
                let ghost before = ctx@.variables;
                let v = Variable { name: save.name.clone(), pool: kept };
                ctx.variables.push(v);
                proof {
                    assert(ctx@.variables =~= before.push(v@));
                }
            },
        }
        k = k + 1;
    }
    match failure {
        Some(e) => Err(e),
        None => Ok(()),
    }
}

fn run_requirements_exec(area: &AreaOfStudy, ctx: &mut Context, ledger: &mut ReservationLedger) -> (r:
    Result<(), AuditError>)
    requires
        old(ctx).requirements@.len() == 0,
        old(ledger)@ == Seq::<Pairing>::empty(),
        old(ledger).wf(),
    ensures
        record_of(final(ctx)@) == record_of(old(ctx)@),
        final(ctx)@.variables == old(ctx)@.variables,
        final(ledger).wf(),
        match run_requirements(
            area.requirements@,
            record_of(old(ctx)@),
            old(ctx)@.variables,
            area.requirements@.len() as int,
        ) {
            Ok((rs, u)) => r.is_ok() && final(ctx)@.requirements == rs && final(ledger)@ == u,
            Err(e) => r == Err::<(), AuditError>(e),
        },
{
    let ghost base = record_of(ctx@);
    let ghost vars = ctx@.variables;
    let mut failure: Option<AuditError> = None;
    let mut k: usize = 0;
    proof {
        assert(ctx@.requirements =~= Seq::<(Seq<char>, ResultView)>::empty());
    }
    while k < area.requirements.len() && failure.is_none()
        invariant
            0 <= k <= area.requirements.len(),
            record_of(ctx@) == base,
            base == record_of(old(ctx)@),
            ctx@.variables == vars,
            vars == old(ctx)@.variables,
            ledger.wf(),
            failure.is_none() ==> run_requirements(area.requirements@, base, vars, k as int) == Ok::<
                (Seq<(Seq<char>, ResultView)>, Seq<Pairing>),
                AuditError,
            >((ctx@.requirements, ledger@)),
            failure.is_some() ==> run_requirements(
                area.requirements@,
                base,
                vars,
                area.requirements@.len() as int,
            ) == Err::<(Seq<(Seq<char>, ResultView)>, Seq<Pairing>), AuditError>(
                failure.unwrap(),
            ),
        decreases area.requirements.len() - k,
    {
        let req = &area.requirements[k];
        proof {
            assert(ctx@ == Env { variables: vars, requirements: ctx@.requirements, ..base });
        }
        match eval_rule(&req.result, ctx, ledger) {
            Err(e) => {
                proof {
                    lemma_run_requirements_error_stays(
                        area.requirements@,
                        base,
                        vars,
                        k + 1,
                        area.requirements@.len() as int,
                    );
                }
                failure = Some(e);
            },
            Ok(v) => {
                let ghost before = ctx@.requirements;
                let rr = RequirementResult { name: req.name.clone(), result: v };
                ctx.requirements.push(rr);
                proof {
                    assert(ctx@.requirements =~= before.push(rr@));
                }
            },
        }
        k = k + 1;
    }
    match failure {
        Some(e) => Err(e),
        None => Ok(()),
    }
}

/// Audits a student's record against an area of study; see `spec_audit`.
pub fn audit(student: Student, area: &AreaOfStudy) -> (r: Result<AuditReport, AuditError>)
    ensures
        audit_outcome(spec_audit(student@, *area), r),
{
    let Student { transcript, areas, performances, attendances } = student;
    let mut ctx = Context {
        transcript,
        areas,
        performances,
        attendances,
        variables: Vec::new(),
        requirements: Vec::new(),
    };
    proof {
        assert(record_of(ctx@) == student@);
    }
    match run_saves_exec(area, &mut ctx) {
        Err(e) => {
            return Err(e);
        },
        Ok(()) => {},
    }
    let mut ledger = ReservationLedger::new();
    match run_requirements_exec(area, &mut ctx, &mut ledger) {
        Err(e) => {
            return Err(e);
        },
        Ok(()) => {},
    }
    proof {
        assert(ctx@ == Env { variables: ctx@.variables, requirements: ctx@.requirements, ..student@ });
    }
    match eval_rule(&area.result, &ctx, &mut ledger) {
        Err(e) => Err(e),
        Ok(result) => {
            let ghost rs = ctx@.requirements;
            let report = AuditReport { result, requirements: ctx.requirements, ledger };
            assert(report@.requirements =~= rs);
            Ok(report)
        },
    }
}

} // verus!
