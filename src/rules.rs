use vstd::prelude::*;

use crate::course::CourseRule;

pub mod count_of;
pub mod given;

verus! {

/// A reference to another named requirement of the same area of study.
#[derive(Debug, PartialEq)]
pub struct RequirementRef {
    pub name: String,
    pub optional: bool,
}

/// A node of a requirement's rule tree.
#[derive(Debug, PartialEq)]
pub enum Rule {
    Course(CourseRule),
    Requirement(RequirementRef),
    CountOf(count_of::Rule),
    Given(given::Rule),
}

/// Whether a rule tree holds a rule that reads a saved subset.
pub open spec fn spec_has_save_rule(r: Rule) -> bool
    decreases r, 0int,
{
    match r {
        Rule::Given(g) => g.given is NamedVariable,
        Rule::CountOf(c) => any_save_rule_from(c.of@, 0),
        _ => false,
    }
}

/// Whether one of `rules[i..]` holds a rule that reads a saved subset.
pub open spec fn any_save_rule_from(rules: Seq<Rule>, i: int) -> bool
    decreases rules, rules.len() - i,
{
    if 0 <= i < rules.len() {
        spec_has_save_rule(rules[i]) || any_save_rule_from(rules, i + 1)
    } else {
        false
    }
}

impl Rule {
    pub fn has_save_rule(&self) -> (r: bool)
        ensures
            r == spec_has_save_rule(*self),
        decreases self,
    {
        match self {
            Rule::Given(g) => g.has_save_rule(),
            Rule::CountOf(c) => c.has_save_rule(),
            _ => false,
        }
    }
}

} // verus!
