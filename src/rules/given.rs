use vstd::prelude::*;

use crate::action::{Action, Command};
use crate::course::CourseRule;
use crate::filter::{Clause, Operator};
use crate::rules::RequirementRef;

verus! {

/// Which occurrences of a listed course a `TheseCourses` source takes.
#[derive(Clone, Copy, Debug, PartialEq, Eq, Structural)]
pub enum RepeatMode {
    First,
    Last,
    All,
}

/// Where a given-rule takes its candidates from.
#[derive(Debug, PartialEq)]
pub enum Given {
    AllCourses,
    TheseCourses { courses: Vec<CourseRule>, repeats: RepeatMode },
    TheseRequirements { requirements: Vec<RequirementRef> },
    AreasOfStudy,
    NamedVariable { save: String },
    /// The recitals that the student performed in.
    Performances,
    /// The recitals that the student attended.
    Attendances,
}

/// The quantity derived from the filtered candidates.
#[derive(Clone, Copy, Debug, PartialEq, Eq, Structural)]
pub enum What {
    Courses,
    DistinctCourses,
    Credits,
    Departments,
    Terms,
    Grades,
    AreasOfStudy,
    Performances,
    Attendances,
}

/// Counts at most `at_most` of the candidates that pass `filter`; the later
/// ones are dropped.
#[derive(Debug, PartialEq)]
pub struct Limiter {
    pub filter: Clause,
    pub at_most: u64,
}

/// Select candidates, filter and limit them, derive a quantity and test it.
#[derive(Debug, PartialEq)]
pub struct Rule {
    pub given: Given,
    pub limit: Option<Vec<Limiter>>,
    pub filter: Option<Clause>,
    pub what: What,
    pub action: Action,
}

/// The command that each kind of quantity is tested with.
pub open spec fn command_fits(what: What, command: Command) -> bool {
    match what {
        What::Credits => command == Command::Sum,
        What::Grades => command == Command::Average,
        _ => command == Command::Count,
    }
}

/// The "either of two" (`count >= 1`) and "both of two" (`count >= 2`) forms.
pub open spec fn is_either_or_both(a: Action) -> bool {
    a.op == Some(Operator::GreaterThanEqualTo) && (a.rhs == Some(1u64) || a.rhs == Some(2u64))
}

/// A two-course list whose occurrences are picked one by one.
pub open spec fn is_two_course_choice(r: Rule) -> bool {
    match r.given {
        Given::TheseCourses { courses, repeats } => courses.len() == 2 && repeats != RepeatMode::All
            && r.what == What::Courses,
        _ => false,
    }
}

/// Areas, performances and attendances are each counted from their own source.
pub open spec fn what_fits_source(r: Rule) -> bool {
    &&& (r.given is AreasOfStudy <==> r.what == What::AreasOfStudy)
    &&& (r.given is Performances <==> r.what == What::Performances)
    &&& (r.given is Attendances <==> r.what == What::Attendances)
}

pub open spec fn spec_is_well_formed(r: Rule) -> bool {
    &&& what_fits_source(r)
    &&& command_fits(r.what, r.action.command)
    &&& is_two_course_choice(r) ==> is_either_or_both(r.action)
}

impl Rule {
    pub fn reads_areas(&self) -> (r: bool)
        ensures
            r == self.given is AreasOfStudy,
    {
        match self.given {
            Given::AreasOfStudy => true,
            _ => false,
        }
    }

    pub fn what_fits_source(&self) -> (r: bool)
        ensures
            r == what_fits_source(*self),
    {
        let (areas, performances, attendances) = match self.given {
            Given::AreasOfStudy => (true, false, false),
            Given::Performances => (false, true, false),
            Given::Attendances => (false, false, true),
            _ => (false, false, false),
        };
        areas == (self.what == What::AreasOfStudy) && performances == (self.what
            == What::Performances) && attendances == (self.what == What::Attendances)
    }

    pub fn has_save_rule(&self) -> (r: bool)
        ensures
            r == self.given is NamedVariable,
    {
        match self.given {
            Given::NamedVariable { .. } => true,
            _ => false,
        }
    }

    /// The source, the quantity and the test fit together.
    pub fn is_well_formed(&self) -> (r: bool)
        ensures
            r == spec_is_well_formed(*self),
    {
        if !self.what_fits_source() {
            return false;
        }
        let fits = match self.what {
            What::Credits => self.action.command == Command::Sum,
            What::Grades => self.action.command == Command::Average,
            _ => self.action.command == Command::Count,
        };
        if !fits {
            return false;
        }
        let two_choice = match &self.given {
            Given::TheseCourses { courses, repeats } => courses.len() == 2 && *repeats
                != RepeatMode::All && self.what == What::Courses,
            _ => false,
        };
        if two_choice {
            let either_or_both = self.action.op == Some(Operator::GreaterThanEqualTo) && (
            self.action.rhs == Some(1u64) || self.action.rhs == Some(2u64));
            either_or_both
        } else {
            true
        }
    }
}

} // verus!
