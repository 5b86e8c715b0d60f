use vstd::prelude::*;

use crate::ledger::Reservation;

verus! {

#[derive(Clone, Copy, Debug, PartialEq, Eq, Structural)]
pub enum RuleStatus {
    Pass,
    Fail,
}

/// A malformed rule or a reference that cannot be resolved; evaluation stops.
#[derive(Clone, Copy, Debug, PartialEq, Eq, Structural)]
pub enum AuditError {
    /// A counter asks for more children than its rule has.
    CounterOutOfRange,
    /// An areas-of-study source without an areas-of-study quantity, or the
    /// other way round.
    WhatMismatch,
    /// A test that the evaluator does not take for this source and quantity.
    UnsupportedAction,
    /// A saved subset read before it was saved.
    UndefinedVariable,
    /// A reference to a requirement that has not been evaluated.
    UnknownRequirement,
}

/// The evidence behind one verdict; it has the shape of the rule evaluated.
#[derive(Debug, PartialEq)]
pub enum RuleResultDetails {
    Course { matched: Option<Reservation> },
    Requirement { name: String, found: bool },
    CountOf { children: Vec<RuleResult>, passed: u64, needed: u64 },
    /// `amount` is the derived quantity (for grades, the grade-point total
    /// over `of` graded courses).
    Given { amount: u128, of: u64 },
}

/// The verdict for one rule node, and the pairings that it claimed.
#[derive(Debug, PartialEq)]
pub struct RuleResult {
    pub status: RuleStatus,
    pub claimed: Vec<Reservation>,
    pub details: RuleResultDetails,
}

/// The verdict for one named top-level requirement.
#[derive(Debug, PartialEq)]
pub struct RequirementResult {
    pub name: String,
    pub result: RuleResult,
}

pub enum DetailsView {
    Course { matched: Option<Reservation> },
    Requirement { name: Seq<char>, found: bool },
    CountOf { children: Seq<ResultView>, passed: nat, needed: nat },
    Given { amount: int, of: int },
}

pub struct ResultView {
    pub status: RuleStatus,
    pub claimed: Seq<Reservation>,
    pub details: DetailsView,
}

/// The views of a sequence of results.
pub open spec fn views(s: Seq<RuleResult>) -> Seq<ResultView>
    decreases s, 0int,
{
    if s.len() == 0 {
        Seq::empty()
    } else {
        views(s.subrange(0, s.len() - 1)).push(s[s.len() - 1].view_of())
    }
}

impl RuleResult {
    pub open spec fn view_of(&self) -> ResultView
        decreases *self, 1int,
    {
        ResultView {
            status: self.status,
            claimed: self.claimed@,
            details: match self.details {
                RuleResultDetails::Course { matched } => DetailsView::Course { matched },
                RuleResultDetails::Requirement { name, found } => DetailsView::Requirement {
                    name: name@,
                    found,
                },
                RuleResultDetails::CountOf { children, passed, needed } => DetailsView::CountOf {
                    children: views(children@),
                    passed: passed as nat,
                    needed: needed as nat,
                },
                RuleResultDetails::Given { amount, of } => DetailsView::Given {
                    amount: amount as int,
                    of: of as int,
                },
            },
        }
    }

    pub open spec fn view(&self) -> ResultView {
        self.view_of()
    }

    pub fn passed(&self) -> (r: bool)
        ensures
            r == (self@.status == RuleStatus::Pass),
    {
        self.status == RuleStatus::Pass
    }
}

pub proof fn lemma_views_push(s: Seq<RuleResult>, x: RuleResult)
    ensures
        views(s.push(x)) == views(s).push(x@),
{
    assert(s.push(x).subrange(0, s.len() as int) == s);
}

} // verus!
