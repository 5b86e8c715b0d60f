use vstd::prelude::*;

use crate::course::{texts, CourseView};
use crate::filter::DeclaredArea;
use crate::ledger::Reservation;
use crate::result::{RequirementResult, ResultView};
use crate::transcript::Transcript;

verus! {

/// A saved subset: a name bound to the pairings that its declaration chose.
#[derive(Debug, PartialEq)]
pub struct Variable {
    pub name: String,
    pub pool: Vec<Reservation>,
}

/// What one audit reads while it walks a rule tree: the student's record,
/// the subsets saved so far and the requirements evaluated so far.
#[derive(Debug, PartialEq)]
pub struct Context {
    pub transcript: Transcript,
    pub areas: Vec<DeclaredArea>,
    pub performances: Vec<String>,
    pub attendances: Vec<String>,
    pub variables: Vec<Variable>,
    pub requirements: Vec<RequirementResult>,
}

pub struct Env {
    pub transcript: Seq<CourseView>,
    pub areas: Seq<DeclaredArea>,
    pub performances: Seq<Seq<char>>,
    pub attendances: Seq<Seq<char>>,
    pub variables: Seq<(Seq<char>, Seq<Reservation>)>,
    pub requirements: Seq<(Seq<char>, ResultView)>,
}

impl Variable {
    pub open spec fn view(&self) -> (Seq<char>, Seq<Reservation>) {
        (self.name@, self.pool@)
    }
}

impl RequirementResult {
    pub open spec fn view(&self) -> (Seq<char>, ResultView) {
        (self.name@, self.result@)
    }
}

impl Context {
    pub open spec fn view(&self) -> Env {
        Env {
            transcript: self.transcript@,
            areas: self.areas@,
            performances: texts(self.performances@),
            attendances: texts(self.attendances@),
            variables: self.variables@.map_values(|v: Variable| v@),
            requirements: self.requirements@.map_values(|r: RequirementResult| r@),
        }
    }
}

/// The first entry at `i` or later that is bound to `name`.
pub open spec fn find_named<T>(s: Seq<(Seq<char>, T)>, name: Seq<char>, i: int) -> Option<T>
    decreases s.len() - i,
{
    if i < 0 || i >= s.len() {
        None
    } else if s[i].0 == name {
        Some(s[i].1)
    } else {
        find_named(s, name, i + 1)
    }
}

impl Context {
    /// The position of the first saved subset called `name`.
    pub fn find_variable(&self, name: &String) -> (r: Option<usize>)
        ensures
            match find_named(self@.variables, name@, 0) {
                Some(p) => r.is_some() && r.unwrap() < self.variables.len()
                    && self.variables@[r.unwrap() as int]@.1 == p,
                None => r.is_none(),
            },
    {
        let ghost vs = self@.variables;
        let mut i: usize = 0;
        while i < self.variables.len()
            invariant
                0 <= i <= self.variables.len(),
                vs == self@.variables,
                vs.len() == self.variables.len(),
                find_named(vs, name@, 0) == find_named(vs, name@, i as int),
            decreases self.variables.len() - i,
        {
            assert(vs[i as int] == self.variables@[i as int]@);
            if self.variables[i].name == *name {
                return Some(i);
            }
            i = i + 1;
        }
        None
    }

    /// The position of the first evaluated requirement called `name`.
    pub fn find_requirement(&self, name: &String) -> (r: Option<usize>)
        ensures
            match find_named(self@.requirements, name@, 0) {
                Some(v) => r.is_some() && r.unwrap() < self.requirements.len()
                    && self.requirements@[r.unwrap() as int].result@ == v,
                None => r.is_none(),
            },
    {
        let ghost rs = self@.requirements;
        let mut i: usize = 0;
        while i < self.requirements.len()
            invariant
                0 <= i <= self.requirements.len(),
                rs == self@.requirements,
                rs.len() == self.requirements.len(),
                find_named(rs, name@, 0) == find_named(rs, name@, i as int),
            decreases self.requirements.len() - i,
        {
            assert(rs[i as int] == self.requirements@[i as int]@);
            if self.requirements[i].name == *name {
                return Some(i);
            }
            i = i + 1;
        }
        None
    }
}

} // verus!
