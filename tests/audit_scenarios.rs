use degreepath::action::{Action, Command};
use degreepath::audit::{audit, AreaOfStudy, Requirement, SaveRule, Student};
use degreepath::course::{CourseInstance, CourseRule, MatchedParts};
use degreepath::filter::{Attribute, Clause, Comparison, DeclaredArea, Operator, Value, WrappedValue};
use degreepath::ledger::ReservationLedger;
use degreepath::result::{AuditError, RuleResultDetails, RuleStatus};
use degreepath::rules::count_of::{Counter, Rule as CountOfRule, Surplus};
use degreepath::rules::given::{Given, Limiter, RepeatMode, Rule as GivenRule, What};
use degreepath::rules::{RequirementRef, Rule};
use degreepath::transcript::Transcript;

fn course(code: &str, term: &str, gereqs: &[&str]) -> CourseInstance {
    CourseInstance {
        course: code.to_string(),
        term: term.to_string(),
        section: None,
        year: 2014,
        semester: "Fall".to_string(),
        level: 200,
        credits: 100,
        grade_points: Some(300),
        departments: vec![code.split(' ').next().unwrap().to_string()],
        gereqs: gereqs.iter().map(|g| g.to_string()).collect(),
        institution: "St. Olaf College".to_string(),
        lab: false,
        international: false,
    }
}

fn student(transcript: Transcript) -> Student {
    Student { transcript, areas: vec![], performances: vec![], attendances: vec![] }
}

fn code_rule(code: &str) -> CourseRule {
    CourseRule::by_code(code.to_string())
}

fn count_at_least(n: u64) -> Action {
    Action::new(Command::Count, Operator::GreaterThanEqualTo, n)
}

fn these_courses(codes: &[&str], repeats: RepeatMode, action: Action) -> Rule {
    Rule::Given(GivenRule {
        given: Given::TheseCourses { courses: codes.iter().map(|c| code_rule(c)).collect(), repeats },
        limit: None,
        filter: None,
        what: What::Courses,
        action,
    })
}

fn area(result: Rule) -> AreaOfStudy {
    AreaOfStudy { saves: vec![], requirements: vec![], result }
}

fn code_parts() -> MatchedParts {
    MatchedParts::code_only()
}

/// The ledger's pairings as (code, term, parts).
fn reserved(ledger: &ReservationLedger) -> Vec<(String, String, MatchedParts)> {
    ledger.reserved.iter().map(|e| (e.course.course.clone(), e.course.term.clone(), e.parts)).collect()
}

fn entry(code: &str, term: &str) -> (String, String, MatchedParts) {
    (code.to_string(), term.to_string(), code_parts())
}

#[test]
fn these_courses_first_passes_and_reserves() {
    let t = Transcript::new(&[course("THEAT 233", "2014-1", &[])]);
    let rule = these_courses(&["THEAT 233"], RepeatMode::First, count_at_least(1));
    let report = audit(student(t), &area(rule)).unwrap();
    assert_eq!(report.result.status, RuleStatus::Pass);
    assert_eq!(reserved(&report.ledger), vec![entry("THEAT 233", "2014-1")]);
}

#[test]
fn these_courses_count_two_fails_and_reserves_nothing() {
    let t = Transcript::new(&[course("THEAT 233", "2014-1", &[])]);
    let rule = these_courses(&["THEAT 233"], RepeatMode::First, count_at_least(2));
    let report = audit(student(t), &area(rule)).unwrap();
    assert_eq!(report.result.status, RuleStatus::Fail);
    assert_eq!(report.result.details, RuleResultDetails::Given { amount: 1, of: 1 });
    assert!(report.ledger.reserved.is_empty());
}

#[test]
fn gereq_filter_reserves_only_matching_course() {
    let t = Transcript::new(&[
        course("ASIAN 110", "2014-1", &["FOL-C"]),
        course("MUSIC 120", "2014-1", &["SPM"]),
    ]);
    let mut clause = Clause::new();
    clause
        .insert(
            Attribute::Gereqs,
            WrappedValue::Single(Comparison { op: Operator::EqualTo, value: Value::String("FOL-C".to_string()) }),
        )
        .unwrap();
    let rule = Rule::Given(GivenRule {
        given: Given::AllCourses,
        limit: None,
        filter: Some(clause),
        what: What::DistinctCourses,
        action: count_at_least(1),
    });
    let report = audit(student(t), &area(rule)).unwrap();
    assert_eq!(report.result.status, RuleStatus::Pass);
    assert_eq!(reserved(&report.ledger), vec![entry("ASIAN 110", "2014-1")]);
}

#[test]
fn count_of_two_of_three_passes() {
    let t = Transcript::new(&[course("ART 101", "2014-1", &[]), course("ART 102", "2014-1", &[])]);
    let rule = Rule::CountOf(CountOfRule {
        count: Counter::Number(2),
        of: vec![
            Rule::Course(code_rule("ART 101")),
            Rule::Course(code_rule("ART 999")),
            Rule::Course(code_rule("ART 102")),
        ],
        surplus: None,
    });
    let report = audit(student(t), &area(rule)).unwrap();
    assert_eq!(report.result.status, RuleStatus::Pass);
    match &report.result.details {
        RuleResultDetails::CountOf { children, passed, needed } => {
            assert_eq!(children.len(), 3);
            assert_eq!(*passed, 2);
            assert_eq!(*needed, 2);
            assert_eq!(children[1].status, RuleStatus::Fail);
        }
        other => panic!("unexpected details {:?}", other),
    }
}

#[test]
fn undefined_variable_is_an_error() {
    let t = Transcript::new(&[course("ART 101", "2014-1", &[])]);
    let rule = Rule::Given(GivenRule {
        given: Given::NamedVariable { save: "$x".to_string() },
        limit: None,
        filter: None,
        what: What::Courses,
        action: count_at_least(1),
    });
    assert_eq!(audit(student(t), &area(rule)).unwrap_err(), AuditError::UndefinedVariable);
}

#[test]
fn saved_variable_is_read_by_later_rule() {
    let t = Transcript::new(&[
        course("ART 101", "2014-1", &["WRI"]),
        course("ART 102", "2014-2", &[]),
        course("ART 103", "2014-3", &["WRI"]),
    ]);
    let mut clause = Clause::new();
    clause
        .insert(
            Attribute::Gereqs,
            WrappedValue::Single(Comparison { op: Operator::EqualTo, value: Value::String("WRI".to_string()) }),
        )
        .unwrap();
    let save = SaveRule { name: "$x".to_string(), given: Given::AllCourses, filter: Some(clause) };
    let rule = Rule::Given(GivenRule {
        given: Given::NamedVariable { save: "$x".to_string() },
        limit: None,
        filter: None,
        what: What::Courses,
        action: count_at_least(2),
    });
    let a = AreaOfStudy { saves: vec![save], requirements: vec![], result: rule };
    let report = audit(student(t), &a).unwrap();
    assert_eq!(report.result.status, RuleStatus::Pass);
    assert_eq!(reserved(&report.ledger), vec![entry("ART 101", "2014-1"), entry("ART 103", "2014-3")]);
}

#[test]
fn audit_twice_gives_identical_reports() {
    let make = || {
        Transcript::new(&[
            course("ART 101", "2014-1", &["WRI"]),
            course("ART 102", "2014-2", &[]),
        ])
    };
    let rule = Rule::CountOf(CountOfRule {
        count: Counter::All,
        of: vec![
            Rule::Course(code_rule("ART 101")),
            these_courses(&["ART 102", "ART 101"], RepeatMode::First, count_at_least(1)),
        ],
        surplus: None,
    });
    let a = area(rule);
    let first = audit(student(make()), &a).unwrap();
    let second = audit(student(make()), &a).unwrap();
    assert_eq!(first, second);
}

#[test]
fn course_is_not_counted_twice() {
    let t = Transcript::new(&[course("ART 101", "2014-1", &[])]);
    let rule = Rule::CountOf(CountOfRule {
        count: Counter::All,
        of: vec![Rule::Course(code_rule("ART 101")), Rule::Course(code_rule("ART 101"))],
        surplus: None,
    });
    let report = audit(student(t), &area(rule)).unwrap();
    assert_eq!(report.result.status, RuleStatus::Fail);
    assert_eq!(report.ledger.reserved.len(), 1);
}

#[test]
fn retaken_course_counts_each_occurrence() {
    let t = Transcript::new(&[course("ART 101", "2014-1", &[]), course("ART 101", "2015-1", &[])]);
    let rule = Rule::CountOf(CountOfRule {
        count: Counter::All,
        of: vec![Rule::Course(code_rule("ART 101")), Rule::Course(code_rule("ART 101"))],
        surplus: None,
    });
    let report = audit(student(t), &area(rule)).unwrap();
    assert_eq!(report.result.status, RuleStatus::Pass);
    assert_eq!(reserved(&report.ledger), vec![entry("ART 101", "2014-1"), entry("ART 101", "2015-1")]);
}

#[test]
fn same_course_through_other_parts_counts_again() {
    let t = Transcript::new(&[course("ART 101", "2014-1", &[])]);
    let mut by_term = code_rule("ART 101");
    by_term.term = Some("2014-1".to_string());
    let rule = Rule::CountOf(CountOfRule {
        count: Counter::All,
        of: vec![Rule::Course(code_rule("ART 101")), Rule::Course(by_term)],
        surplus: None,
    });
    let report = audit(student(t), &area(rule)).unwrap();
    assert_eq!(report.result.status, RuleStatus::Pass);
    assert_eq!(report.ledger.reserved.len(), 2);
}

#[test]
fn counter_all_matches_number_of_children() {
    let make = || Transcript::new(&[course("ART 101", "2014-1", &[])]);
    let children = || vec![Rule::Course(code_rule("ART 101")), Rule::Course(code_rule("ART 102"))];
    let all = Rule::CountOf(CountOfRule { count: Counter::All, of: children(), surplus: None });
    let number = Rule::CountOf(CountOfRule { count: Counter::Number(2), of: children(), surplus: None });
    let a = audit(student(make()), &area(all)).unwrap();
    let b = audit(student(make()), &area(number)).unwrap();
    assert_eq!(a, b);
    assert_eq!(a.result.status, RuleStatus::Fail);
}

#[test]
fn counter_any_matches_number_one() {
    let make = || Transcript::new(&[course("ART 102", "2014-1", &[])]);
    let children = || vec![Rule::Course(code_rule("ART 101")), Rule::Course(code_rule("ART 102"))];
    let any = Rule::CountOf(CountOfRule { count: Counter::Any, of: children(), surplus: None });
    let one = Rule::CountOf(CountOfRule { count: Counter::Number(1), of: children(), surplus: None });
    let a = audit(student(make()), &area(any)).unwrap();
    let b = audit(student(make()), &area(one)).unwrap();
    assert_eq!(a, b);
    assert_eq!(a.result.status, RuleStatus::Pass);
}

#[test]
fn counter_out_of_range_is_an_error() {
    let t = Transcript::new(&[]);
    let rule = Rule::CountOf(CountOfRule {
        count: Counter::Number(3),
        of: vec![Rule::Course(code_rule("ART 101")), Rule::Course(code_rule("ART 102"))],
        surplus: None,
    });
    assert_eq!(audit(student(t), &area(rule)).unwrap_err(), AuditError::CounterOutOfRange);
}

#[test]
fn surplus_ignore_leaves_later_children_unevaluated() {
    let make = || Transcript::new(&[course("ART 101", "2014-1", &[]), course("ART 102", "2014-1", &[])]);
    let children = || vec![Rule::Course(code_rule("ART 101")), Rule::Course(code_rule("ART 102"))];
    let ignore = Rule::CountOf(CountOfRule { count: Counter::Any, of: children(), surplus: Some(Surplus::Ignore) });
    let reserve = Rule::CountOf(CountOfRule { count: Counter::Any, of: children(), surplus: Some(Surplus::Reserve) });
    let a = audit(student(make()), &area(ignore)).unwrap();
    let b = audit(student(make()), &area(reserve)).unwrap();
    assert_eq!(a.ledger.reserved.len(), 1);
    assert_eq!(b.ledger.reserved.len(), 2);
}

#[test]
fn first_and_last_agree_for_one_course() {
    for n in 0..3u64 {
        let make = || Transcript::new(&[course("THEAT 233", "2014-1", &[]), course("THEAT 233", "2015-1", &[])]);
        let first = these_courses(&["THEAT 233"], RepeatMode::First, count_at_least(n));
        let last = these_courses(&["THEAT 233"], RepeatMode::Last, count_at_least(n));
        let a = audit(student(make()), &area(first)).unwrap();
        let b = audit(student(make()), &area(last)).unwrap();
        assert_eq!(a.result.status, b.result.status);
    }
    let first = these_courses(&["THEAT 233"], RepeatMode::First, count_at_least(1));
    let last = these_courses(&["THEAT 233"], RepeatMode::Last, count_at_least(1));
    let make = || Transcript::new(&[course("THEAT 233", "2014-1", &[]), course("THEAT 233", "2015-1", &[])]);
    let a = audit(student(make()), &area(first)).unwrap();
    let b = audit(student(make()), &area(last)).unwrap();
    assert_eq!(reserved(&a.ledger), vec![entry("THEAT 233", "2014-1")]);
    assert_eq!(reserved(&b.ledger), vec![entry("THEAT 233", "2015-1")]);
}

#[test]
fn repeats_all_takes_every_occurrence() {
    let t = Transcript::new(&[course("THEAT 233", "2014-1", &[]), course("THEAT 233", "2015-1", &[])]);
    let rule = these_courses(&["THEAT 233"], RepeatMode::All, count_at_least(2));
    let report = audit(student(t), &area(rule)).unwrap();
    assert_eq!(report.result.status, RuleStatus::Pass);
    assert_eq!(report.ledger.reserved.len(), 2);
}

#[test]
fn two_course_list_needs_either_or_both() {
    let t = Transcript::new(&[course("THEAT 233", "2014-1", &[])]);
    let rule = these_courses(&["THEAT 233", "THEAT 253"], RepeatMode::First, count_at_least(3));
    assert_eq!(audit(student(t), &area(rule)).unwrap_err(), AuditError::UnsupportedAction);
    let t = Transcript::new(&[course("THEAT 233", "2014-1", &[])]);
    let either = these_courses(&["THEAT 233", "THEAT 253"], RepeatMode::First, count_at_least(1));
    assert_eq!(audit(student(t), &area(either)).unwrap().result.status, RuleStatus::Pass);
    let t = Transcript::new(&[course("THEAT 233", "2014-1", &[])]);
    let both = these_courses(&["THEAT 233", "THEAT 253"], RepeatMode::First, count_at_least(2));
    assert_eq!(audit(student(t), &area(both)).unwrap().result.status, RuleStatus::Fail);
}

#[test]
fn areas_what_needs_areas_source() {
    let t = Transcript::new(&[]);
    let rule = Rule::Given(GivenRule {
        given: Given::AllCourses,
        limit: None,
        filter: None,
        what: What::AreasOfStudy,
        action: count_at_least(1),
    });
    assert_eq!(audit(student(t), &area(rule)).unwrap_err(), AuditError::WhatMismatch);
}

#[test]
fn declared_areas_are_counted_through_filter() {
    let t = Transcript::new(&[]);
    let mut clause = Clause::new();
    clause
        .insert(
            Attribute::AreaKind,
            WrappedValue::Single(Comparison { op: Operator::EqualTo, value: Value::String("major".to_string()) }),
        )
        .unwrap();
    let rule = Rule::Given(GivenRule {
        given: Given::AreasOfStudy,
        limit: None,
        filter: Some(clause),
        what: What::AreasOfStudy,
        action: Action::new(Command::Count, Operator::EqualTo, 2),
    });
    let areas = vec![
        DeclaredArea { name: "Mathematics".to_string(), kind: "major".to_string() },
        DeclaredArea { name: "Music".to_string(), kind: "minor".to_string() },
        DeclaredArea { name: "Physics".to_string(), kind: "major".to_string() },
    ];
    let report = audit(Student { transcript: t, areas, performances: vec![], attendances: vec![] }, &area(rule)).unwrap();
    assert_eq!(report.result.status, RuleStatus::Pass);
    assert_eq!(report.result.details, RuleResultDetails::Given { amount: 2, of: 2 });
}

#[test]
fn requirement_reference_reads_earlier_verdict() {
    let t = Transcript::new(&[course("ART 101", "2014-1", &[])]);
    let core = Requirement { name: "Core".to_string(), result: Rule::Course(code_rule("ART 101")) };
    let extra = Requirement { name: "Extra".to_string(), result: Rule::Course(code_rule("ART 999")) };
    let result = Rule::CountOf(CountOfRule {
        count: Counter::All,
        of: vec![
            Rule::Requirement(RequirementRef { name: "Core".to_string(), optional: false }),
            Rule::Requirement(RequirementRef { name: "Missing".to_string(), optional: true }),
        ],
        surplus: None,
    });
    let a = AreaOfStudy { saves: vec![], requirements: vec![core, extra], result };
    let report = audit(student(t), &a).unwrap();
    assert_eq!(report.requirements.len(), 2);
    assert_eq!(report.requirements[0].result.status, RuleStatus::Pass);
    assert_eq!(report.requirements[1].result.status, RuleStatus::Fail);
    assert_eq!(report.result.status, RuleStatus::Pass);
}

#[test]
fn optional_reference_to_failed_requirement_fails() {
    let t = Transcript::new(&[course("ART 101", "2014-1", &[])]);
    let extra = Requirement { name: "Extra".to_string(), result: Rule::Course(code_rule("ART 999")) };
    let result = Rule::Requirement(RequirementRef { name: "Extra".to_string(), optional: true });
    let a = AreaOfStudy { saves: vec![], requirements: vec![extra], result };
    let report = audit(student(t), &a).unwrap();
    assert_eq!(report.result.status, RuleStatus::Fail);
}

#[test]
fn reference_to_later_requirement_is_an_error() {
    let t = Transcript::new(&[course("ART 101", "2014-1", &[])]);
    let first = Requirement {
        name: "First".to_string(),
        result: Rule::Requirement(RequirementRef { name: "Second".to_string(), optional: false }),
    };
    let second = Requirement { name: "Second".to_string(), result: Rule::Course(code_rule("ART 101")) };
    let a = AreaOfStudy {
        saves: vec![],
        requirements: vec![first, second],
        result: Rule::Course(code_rule("ART 101")),
    };
    assert_eq!(audit(student(t), &a).unwrap_err(), AuditError::UnknownRequirement);
}

#[test]
fn identical_course_in_two_audits_is_keyed_by_course() {
    let wide = Transcript::new(&[course("ART 101", "2014-1", &[]), course("ART 102", "2014-1", &["WRI"])]);
    let narrow = Transcript::new(&[course("ART 102", "2014-1", &["WRI"])]);
    let mut ledger = ReservationLedger::new();
    let rule = code_rule("ART 102");
    let (c, parts) = wide.has_course_matching(&rule, &ledger).unwrap();
    ledger.reserve(&c, parts);
    assert_eq!(wide.has_course_matching(&rule, &ledger), None);
    assert_eq!(narrow.has_course_matching(&rule, &ledger), None);
}

#[test]
fn unknown_requirement_is_an_error() {
    let t = Transcript::new(&[]);
    let rule = Rule::Requirement(RequirementRef { name: "Core".to_string(), optional: false });
    assert_eq!(audit(student(t), &area(rule)).unwrap_err(), AuditError::UnknownRequirement);
}

#[test]
fn these_requirements_pool_uses_claimed_courses() {
    let t = Transcript::new(&[course("ART 101", "2014-1", &[]), course("ART 102", "2014-1", &[])]);
    let core = Requirement { name: "Core".to_string(), result: Rule::Course(code_rule("ART 101")) };
    let modern = Requirement { name: "Modern".to_string(), result: Rule::Course(code_rule("ART 102")) };
    let result = Rule::Given(GivenRule {
        given: Given::TheseRequirements {
            requirements: vec![
                RequirementRef { name: "Core".to_string(), optional: false },
                RequirementRef { name: "Modern".to_string(), optional: false },
            ],
        },
        limit: None,
        filter: None,
        what: What::Credits,
        action: Action::new(Command::Sum, Operator::GreaterThanEqualTo, 200),
    });
    let a = AreaOfStudy { saves: vec![], requirements: vec![core, modern], result };
    let report = audit(student(t), &a).unwrap();
    assert_eq!(report.result.status, RuleStatus::Pass);
    assert_eq!(report.result.details, RuleResultDetails::Given { amount: 200, of: 2 });
    assert_eq!(report.ledger.reserved.len(), 2);
}

#[test]
fn performances_are_counted() {
    let rule = Rule::Given(GivenRule {
        given: Given::Performances,
        limit: None,
        filter: None,
        what: What::Performances,
        action: count_at_least(2),
    });
    let record = Student {
        transcript: Transcript::new(&[]),
        areas: vec![],
        performances: vec!["Fall recital".to_string(), "Spring recital".to_string()],
        attendances: vec![],
    };
    let report = audit(record, &area(rule)).unwrap();
    assert_eq!(report.result.status, RuleStatus::Pass);
    assert_eq!(report.result.details, RuleResultDetails::Given { amount: 2, of: 2 });
}

#[test]
fn attendances_are_counted() {
    let rule = Rule::Given(GivenRule {
        given: Given::Attendances,
        limit: None,
        filter: None,
        what: What::Attendances,
        action: count_at_least(3),
    });
    let record = Student {
        transcript: Transcript::new(&[]),
        areas: vec![],
        performances: vec![],
        attendances: vec!["Christmas Festival".to_string(), "Jazz night".to_string()],
    };
    let report = audit(record, &area(rule)).unwrap();
    assert_eq!(report.result.status, RuleStatus::Fail);
    assert_eq!(report.result.details, RuleResultDetails::Given { amount: 2, of: 2 });
}

#[test]
fn performances_need_their_own_quantity() {
    let rule = Rule::Given(GivenRule {
        given: Given::Performances,
        limit: None,
        filter: None,
        what: What::Courses,
        action: count_at_least(1),
    });
    assert_eq!(audit(student(Transcript::new(&[])), &area(rule)).unwrap_err(), AuditError::WhatMismatch);
}

#[test]
fn limiter_caps_matching_candidates() {
    let t = Transcript::new(&[
        course("ART 101", "2014-1", &["WRI"]),
        course("ART 102", "2014-1", &["WRI"]),
        course("ART 103", "2014-1", &[]),
        course("ART 104", "2014-1", &["WRI"]),
    ]);
    let mut wri = Clause::new();
    wri.insert(
        Attribute::Gereqs,
        WrappedValue::Single(Comparison { op: Operator::EqualTo, value: Value::String("WRI".to_string()) }),
    )
    .unwrap();
    let rule = Rule::Given(GivenRule {
        given: Given::AllCourses,
        limit: Some(vec![Limiter { filter: wri, at_most: 1 }]),
        filter: None,
        what: What::Courses,
        action: count_at_least(3),
    });
    let report = audit(student(t), &area(rule)).unwrap();
    assert_eq!(report.result.status, RuleStatus::Fail);
    assert_eq!(report.result.details, RuleResultDetails::Given { amount: 2, of: 2 });
    assert!(report.ledger.reserved.is_empty());
}
