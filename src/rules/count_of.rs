use vstd::prelude::*;

use crate::rules::Rule as AnyRule;

verus! {

/// How many children of a count-of rule must pass.
#[derive(Clone, Copy, Debug, PartialEq, Eq, Structural)]
pub enum Counter {
    All,
    Any,
    Number(u64),
}

/// Whether children past the point where the count is met are still
/// evaluated (and so still take their courses).
#[derive(Clone, Copy, Debug, PartialEq, Eq, Structural)]
pub enum Surplus {
    Ignore,
    Reserve,
}

/// "`count` of the rules in `of`".
#[derive(Debug, PartialEq)]
pub struct Rule {
    pub count: Counter,
    pub of: Vec<AnyRule>,
    pub surplus: Option<Surplus>,
}

/// How many children must pass; none when `Number(n)` asks for more children
/// than there are.
pub open spec fn spec_needed(count: Counter, len: nat) -> Option<nat> {
    match count {
        Counter::All => Some(len),
        Counter::Any => Some(1),
        Counter::Number(n) => if n <= len {
            Some(n as nat)
        } else {
            None
        },
    }
}

impl Rule {
    pub open spec fn spec_is_all(&self) -> bool {
        match self.count {
            Counter::All => true,
            Counter::Number(n) => n == self.of.len(),
            _ => false,
        }
    }

    pub open spec fn spec_is_any(&self) -> bool {
        match self.count {
            Counter::Any => true,
            Counter::Number(n) => n == 1,
            _ => false,
        }
    }

    pub fn is_all(&self) -> (r: bool)
        ensures
            r == self.spec_is_all(),
    {
        match self.count {
            Counter::All => true,
            Counter::Number(n) => n as u128 == self.of.len() as u128,
            _ => false,
        }
    }

    pub fn is_any(&self) -> (r: bool)
        ensures
            r == self.spec_is_any(),
    {
        match self.count {
            Counter::Any => true,
            Counter::Number(n) => n == 1,
            _ => false,
        }
    }

    pub fn is_single(&self) -> (r: bool)
        ensures
            r == (self.of.len() == 1),
    {
        self.of.len() == 1
    }

    pub fn is_either(&self) -> (r: bool)
        ensures
            r == (self.of.len() == 2 && self.spec_is_any()),
    {
        self.of.len() == 2 && self.is_any()
    }

    pub fn is_both(&self) -> (r: bool)
        ensures
            r == (self.of.len() == 2 && self.spec_is_all()),
    {
        self.of.len() == 2 && self.is_all()
    }

    pub fn only_requirements(&self) -> (r: bool)
        ensures
            r == forall|i: int| 0 <= i < self.of.len() ==> (#[trigger] self.of@[i]) is Requirement,
    {
        let mut i: usize = 0;
        while i < self.of.len()
            invariant
                0 <= i <= self.of.len(),
                forall|k: int| 0 <= k < i ==> (#[trigger] self.of@[k]) is Requirement,
            decreases self.of.len() - i,
        {
            match &self.of[i] {
                AnyRule::Requirement(_) => {},
                _ => return false,
            }
            i = i + 1;
        }
        true
    }

    pub fn only_courses(&self) -> (r: bool)
        ensures
            r == forall|i: int| 0 <= i < self.of.len() ==> (#[trigger] self.of@[i]) is Course,
    {
        let mut i: usize = 0;
        while i < self.of.len()
            invariant
                0 <= i <= self.of.len(),
                forall|k: int| 0 <= k < i ==> (#[trigger] self.of@[k]) is Course,
            decreases self.of.len() - i,
        {
            match &self.of[i] {
                AnyRule::Course(_) => {},
                _ => return false,
            }
            i = i + 1;
        }
        true
    }

    pub fn only_courses_and_requirements(&self) -> (r: bool)
        ensures
            r == forall|i: int|
                0 <= i < self.of.len() ==> (#[trigger] self.of@[i]) is Course || self.of@[i] is Requirement,
    {
        let mut i: usize = 0;
        while i < self.of.len()
            invariant
                0 <= i <= self.of.len(),
                forall|k: int|
                    0 <= k < i ==> (#[trigger] self.of@[k]) is Course || self.of@[k] is Requirement,
            decreases self.of.len() - i,
        {
            match &self.of[i] {
                AnyRule::Requirement(_) | AnyRule::Course(_) => {},
                _ => return false,
            }
            i = i + 1;
        }
        true
    }

    pub fn has_save_rule(&self) -> (r: bool)
        ensures
            r == crate::rules::any_save_rule_from(self.of@, 0),
        decreases self,
    {
        let mut i: usize = 0;
        while i < self.of.len()
            invariant
                0 <= i <= self.of.len(),
                crate::rules::any_save_rule_from(self.of@, 0) == crate::rules::any_save_rule_from(
                    self.of@,
                    i as int,
                ),
            decreases self.of.len() - i,
        {
            proof {
                assert(decreases_to!(self.of => self.of[i as int]));
            }
            if self.of[i].has_save_rule() {
                return true;
            }
            i = i + 1;
        }
        false
    }

    /// Short enough to be written on one line.
    pub fn should_be_inline(&self) -> (r: bool)
        ensures
            r == (self.of.len() < 4 && !crate::rules::any_save_rule_from(self.of@, 0)),
    {
        self.of.len() < 4 && !self.has_save_rule()
    }

    /// How many children must pass; `None` where the counter asks for more
    /// children than the rule has.
    pub fn needed(&self) -> (r: Option<u64>)
        ensures
            match spec_needed(self.count, self.of@.len()) {
                Some(n) => r == Some(n as u64),
                None => r.is_none(),
            },
    {
        match self.count {
            Counter::All => Some(self.of.len() as u64),
            Counter::Any => Some(1),
            Counter::Number(n) => if n as u128 <= self.of.len() as u128 {
                Some(n)
            } else {
                None
            },
        }
    }
}

} // verus!
