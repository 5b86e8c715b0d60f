use degreepath::action::{Action, Command};
use degreepath::context::Context;
use degreepath::course::{CourseInstance, CourseRule, MatchedParts};
use degreepath::engine::eval_rule;
use degreepath::filter::{Attribute, Clause, Comparison, FilterError, Operator, Value, WrappedValue};
use degreepath::ledger::{Reservation, ReservationLedger};
use degreepath::result::{RuleResultDetails, RuleStatus};
use degreepath::rules::count_of::{Counter, Rule as CountOfRule};
use degreepath::rules::given::{Given, RepeatMode, Rule as GivenRule, What};
use degreepath::rules::{RequirementRef, Rule};
use degreepath::transcript::Transcript;

fn course(code: &str, term: &str, depts: &[&str], credits: u64, grade: Option<u64>) -> CourseInstance {
    CourseInstance {
        course: code.to_string(),
        term: term.to_string(),
        section: Some("A".to_string()),
        year: 2014,
        semester: "Fall".to_string(),
        level: 100,
        credits,
        grade_points: grade,
        departments: depts.iter().map(|d| d.to_string()).collect(),
        gereqs: vec!["WRI".to_string()],
        institution: "St. Olaf College".to_string(),
        lab: false,
        international: true,
    }
}

fn text(op: Operator, s: &str) -> WrappedValue {
    WrappedValue::Single(Comparison { op, value: Value::String(s.to_string()) })
}

fn given_all(what: What, action: Action) -> Rule {
    Rule::Given(GivenRule { given: Given::AllCourses, limit: None, filter: None, what, action })
}

fn context(courses: &[CourseInstance]) -> Context {
    Context {
        transcript: Transcript::new(courses),
        areas: vec![],
        performances: vec![],
        attendances: vec![],
        variables: vec![],
        requirements: vec![],
    }
}

fn sample() -> Vec<CourseInstance> {
    vec![
        course("MATH 120", "2014-1", &["MATH"], 100, Some(400)),
        course("MATH 220", "2014-1", &["MATH"], 100, Some(300)),
        course("CSCI 251", "2014-3", &["CSCI", "MATH"], 25, None),
        course("MATH 120", "2015-1", &["MATH"], 100, Some(200)),
    ]
}

#[test]
fn course_rule_from_code() {
    let r: CourseRule = "STAT 214".parse().unwrap();
    assert_eq!(r.course, "STAT 214");
    assert_eq!(r.term, None);
    assert_eq!(r.year, None);
}

#[test]
fn matches_rule_reports_parts() {
    let c = course("STAT 214", "2014-4", &["STAT"], 100, None);
    let mut r = CourseRule::by_code("STAT 214".to_string());
    r.term = Some("2014-4".to_string());
    let m = c.matches_rule(&r);
    assert!(m.any());
    assert!(m.course && m.term && !m.section);
    r.term = Some("2015-1".to_string());
    assert!(!c.matches_rule(&r).any());
    let other = CourseRule::by_code("STAT 215".to_string());
    assert!(!c.matches_rule(&other).any());
}

#[test]
fn has_course_matching_skips_reserved() {
    let t = Transcript::new(&sample());
    let r = CourseRule::by_code("MATH 120".to_string());
    let mut ledger = ReservationLedger::new();
    let (first, parts) = t.has_course_matching(&r, &ledger).unwrap();
    assert_eq!(parts, MatchedParts::code_only());
    assert_eq!(first.term, "2014-1");
    assert_eq!(t.first_course_matching(&r, &ledger), Some(Reservation { course: 0, parts }));
    ledger.reserve(&first, parts);
    let (second, parts) = t.has_course_matching(&r, &ledger).unwrap();
    assert_eq!(second.term, "2015-1");
    ledger.reserve(&second, parts);
    assert_eq!(t.has_course_matching(&r, &ledger), None);
    assert_eq!(t.last_course_matching(&r, &ReservationLedger::new()).unwrap().course, 3);
    assert_eq!(t.all_courses_matching(&r, &ReservationLedger::new()).len(), 2);
}

#[test]
fn reserve_is_idempotent() {
    let mut ledger = ReservationLedger::new();
    let c = course("MATH 120", "2014-1", &["MATH"], 100, Some(400));
    let parts = MatchedParts::code_only();
    ledger.reserve(&c, parts);
    ledger.reserve(&c, parts);
    assert_eq!(ledger.reserved.len(), 1);
    assert!(ledger.contains(&c, parts));
    let retake = course("MATH 120", "2015-1", &["MATH"], 100, Some(400));
    assert!(!ledger.contains(&retake, parts));
}

#[test]
fn clause_rejects_duplicate_and_ill_typed() {
    let mut clause = Clause::new();
    assert_eq!(clause.insert(Attribute::Gereqs, text(Operator::EqualTo, "WRI")), Ok(()));
    assert_eq!(clause.insert(Attribute::Gereqs, text(Operator::EqualTo, "SPM")), Err(FilterError::DuplicateKey));
    assert_eq!(
        clause.insert(Attribute::Level, text(Operator::EqualTo, "100")),
        Err(FilterError::IllTyped)
    );
    assert_eq!(
        clause.insert(Attribute::Semester, text(Operator::GreaterThan, "Fall")),
        Err(FilterError::IllTyped)
    );
    assert_eq!(clause.entries.len(), 1);
}

#[test]
fn clause_conjunction_and_or_list() {
    let c = course("MATH 220", "2014-1", &["MATH"], 100, Some(300));
    let mut clause = Clause::new();
    assert!(clause.matches_course(&c));
    clause.insert(Attribute::Department, text(Operator::EqualTo, "MATH")).unwrap();
    assert!(clause.matches_course(&c));
    clause
        .insert(
            Attribute::Semester,
            WrappedValue::Or(vec![
                Comparison { op: Operator::EqualTo, value: Value::String("Interim".to_string()) },
                Comparison { op: Operator::EqualTo, value: Value::String("Fall".to_string()) },
            ]),
        )
        .unwrap();
    assert!(clause.matches_course(&c));
    clause
        .insert(
            Attribute::Level,
            WrappedValue::Single(Comparison { op: Operator::GreaterThanEqualTo, value: Value::Integer(200) }),
        )
        .unwrap();
    assert!(!clause.matches_course(&c));
}

#[test]
fn clause_negation_and_flags() {
    let c = course("MATH 220", "2014-1", &["MATH"], 100, Some(300));
    let mut outside = Clause::new();
    outside.insert(Attribute::Department, text(Operator::NotEqualTo, "MATH")).unwrap();
    assert!(!outside.matches_course(&c));
    let mut intl = Clause::new();
    intl.insert(
        Attribute::International,
        WrappedValue::Single(Comparison { op: Operator::EqualTo, value: Value::Bool(true) }),
    )
    .unwrap();
    assert!(intl.matches_course(&c));
    let mut grade = Clause::new();
    grade
        .insert(
            Attribute::Grade,
            WrappedValue::Single(Comparison { op: Operator::LessThan, value: Value::Integer(300) }),
        )
        .unwrap();
    assert!(!grade.matches_course(&c));
}

#[test]
fn extra_clause_entry_never_widens_pool() {
    let t = Transcript::new(&sample());
    let mut wide = Clause::new();
    wide.insert(Attribute::Department, text(Operator::EqualTo, "MATH")).unwrap();
    let mut narrow = Clause::new();
    narrow.insert(Attribute::Department, text(Operator::EqualTo, "MATH")).unwrap();
    narrow
        .insert(
            Attribute::Grade,
            WrappedValue::Single(Comparison { op: Operator::GreaterThanEqualTo, value: Value::Integer(300) }),
        )
        .unwrap();
    let wide_count = t.courses.iter().filter(|c| wide.matches_course(c)).count();
    let narrow_count = t.courses.iter().filter(|c| narrow.matches_course(c)).count();
    assert_eq!(wide_count, 4);
    assert_eq!(narrow_count, 2);
    for c in t.courses.iter() {
        assert!(!narrow.matches_course(c) || wide.matches_course(c));
    }
}

#[test]
fn action_thresholds() {
    let a = Action::new(Command::Count, Operator::GreaterThanEqualTo, 2);
    assert!(a.evaluate(2, 2));
    assert!(!a.evaluate(1, 1));
    let truthy = Action { command: Command::Count, op: None, rhs: None };
    assert!(truthy.evaluate(1, 1));
    assert!(!truthy.evaluate(0, 0));
    let avg = Action::new(Command::Average, Operator::GreaterThanEqualTo, 300);
    assert!(avg.evaluate(900, 3));
    assert!(!avg.evaluate(899, 3));
    assert!(!avg.evaluate(0, 0));
    let avg_gt = Action::new(Command::Average, Operator::GreaterThan, 300);
    assert!(avg_gt.evaluate(901, 3));
    assert!(!avg_gt.evaluate(900, 3));
}

#[test]
fn should_pluralize_only_above_one() {
    assert!(!Action::new(Command::Count, Operator::GreaterThanEqualTo, 1).should_pluralize());
    assert!(!Action::new(Command::Count, Operator::EqualTo, 1).should_pluralize());
    assert!(Action::new(Command::Count, Operator::GreaterThanEqualTo, 2).should_pluralize());
    assert!(Action::new(Command::Count, Operator::GreaterThan, 1).should_pluralize());
}

#[test]
fn quantities_over_all_courses() {
    let cases = [
        (What::Courses, Command::Count, 4u128, 4u64),
        (What::DistinctCourses, Command::Count, 3, 4),
        (What::Credits, Command::Sum, 325, 4),
        (What::Departments, Command::Count, 2, 4),
        (What::Terms, Command::Count, 3, 4),
        (What::Grades, Command::Average, 900, 3),
    ];
    for (what, command, amount, of) in cases {
        let ctx = context(&sample());
        let mut ledger = ReservationLedger::new();
        let rule = given_all(what, Action::new(command, Operator::GreaterThanEqualTo, 1));
        let r = eval_rule(&rule, &ctx, &mut ledger).unwrap();
        assert_eq!(r.details, RuleResultDetails::Given { amount, of });
        assert_eq!(r.status, RuleStatus::Pass);
        assert_eq!(ledger.reserved.len(), 4);
    }
}

#[test]
fn average_grade_threshold() {
    let ctx = context(&sample());
    let mut ledger = ReservationLedger::new();
    let rule = given_all(What::Grades, Action::new(Command::Average, Operator::GreaterThanEqualTo, 301));
    let r = eval_rule(&rule, &ctx, &mut ledger).unwrap();
    assert_eq!(r.status, RuleStatus::Fail);
    assert!(ledger.reserved.is_empty());
}

#[test]
fn count_of_shape_helpers() {
    let two = |count| CountOfRule {
        count,
        of: vec![
            Rule::Course(CourseRule::by_code("A 1".to_string())),
            Rule::Requirement(RequirementRef { name: "B".to_string(), optional: false }),
        ],
        surplus: None,
    };
    assert!(two(Counter::Any).is_either());
    assert!(two(Counter::Number(1)).is_either());
    assert!(two(Counter::All).is_both());
    assert!(two(Counter::Number(2)).is_both());
    assert!(!two(Counter::Number(2)).is_single());
    assert!(two(Counter::All).only_courses_and_requirements());
    assert!(!two(Counter::All).only_courses());
    assert!(!two(Counter::All).only_requirements());
    assert!(two(Counter::All).should_be_inline());
    assert_eq!(two(Counter::Number(3)).needed(), None);
    assert_eq!(two(Counter::All).needed(), Some(2));
    let with_save = CountOfRule {
        count: Counter::All,
        of: vec![Rule::Given(GivenRule {
            given: Given::NamedVariable { save: "$x".to_string() },
            limit: None,
            filter: None,
            what: What::Courses,
            action: Action::new(Command::Count, Operator::GreaterThanEqualTo, 1),
        })],
        surplus: None,
    };
    assert!(with_save.has_save_rule());
    assert!(!with_save.should_be_inline());
}

#[test]
fn given_rule_shape_checks() {
    let ok = GivenRule {
        given: Given::TheseCourses {
            courses: vec![CourseRule::by_code("A 1".to_string()), CourseRule::by_code("A 2".to_string())],
            repeats: RepeatMode::First,
        },
        limit: None,
        filter: None,
        what: What::Courses,
        action: Action::new(Command::Count, Operator::GreaterThanEqualTo, 2),
    };
    assert!(ok.is_well_formed());
    let credits_by_count = GivenRule {
        given: Given::AllCourses,
        limit: None,
        filter: None,
        what: What::Credits,
        action: Action::new(Command::Count, Operator::GreaterThanEqualTo, 2),
    };
    assert!(!credits_by_count.is_well_formed());
}

#[test]
fn value_conversions_and_flag_comparison() {
    assert_eq!(Value::from(100u64), Value::Integer(100));
    assert_eq!(Value::from(true), Value::Bool(true));
    assert_eq!(Value::from("FOL-C".to_string()), Value::String("FOL-C".to_string()));
    assert_eq!(Value::text("SPM"), Value::String("SPM".to_string()));
    assert!(Value::Bool(true).equals_flag(true));
    assert!(!Value::Bool(false).equals_flag(true));
    assert!(!Value::Integer(1).equals_flag(true));
}

#[test]
fn course_rule_from_code_has_no_other_constraint() {
    let r: CourseRule = "THEAT 233".parse().unwrap();
    assert_eq!(r.course, "THEAT 233");
    assert!(r.section.is_none() && r.semester.is_none() && r.lab.is_none() && r.international.is_none());
}
