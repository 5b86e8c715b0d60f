use vstd::prelude::*;

use crate::filter::{compare_numbers, Operator};

verus! {

/// How the quantity that an action tests is aggregated.
#[derive(Clone, Copy, Debug, PartialEq, Eq, Structural)]
pub enum Command {
    Count,
    Sum,
    Average,
}

/// One threshold test: `command op rhs`, such as `count >= 2`.
///
/// Without an operator or a right-hand side the test asks only that the
/// quantity be non-zero. Averages are over grade points in hundredths, so
/// `average >= 2.0` is written with `rhs == Some(200)`.
#[derive(Clone, Copy, Debug, PartialEq, Eq, Structural)]
pub struct Action {
    pub command: Command,
    pub op: Option<Operator>,
    pub rhs: Option<u64>,
}

/// Whether the action holds of a quantity: `amount` is the count or the sum;
/// for an average it is the total over `n` items, and the mean
/// `amount / n` is compared with the right-hand side.
pub open spec fn action_holds(a: Action, amount: int, n: int) -> bool {
    if a.op.is_none() || a.rhs.is_none() {
        amount > 0
    } else if a.command == Command::Average {
        n > 0 && compare_numbers(a.op.unwrap(), amount, a.rhs.unwrap() * n)
    } else {
        compare_numbers(a.op.unwrap(), amount, a.rhs.unwrap() as int)
    }
}

pub open spec fn spec_should_pluralize(a: Action) -> bool {
    !(a.rhs == Some(1u64) && (a.op == Some(Operator::EqualTo) || a.op == Some(
        Operator::GreaterThanEqualTo,
    )))
}

fn compare_u128(op: Operator, have: u128, want: u128) -> (r: bool)
    ensures
        r == compare_numbers(op, have as int, want as int),
{
    match op {
        Operator::EqualTo => have == want,
        Operator::NotEqualTo => have != want,
        Operator::LessThan => have < want,
        Operator::LessThanEqualTo => have <= want,
        Operator::GreaterThan => have > want,
        Operator::GreaterThanEqualTo => have >= want,
    }
}

impl Action {
    pub fn new(command: Command, op: Operator, rhs: u64) -> (r: Action)
        ensures
            r == (Action { command, op: Some(op), rhs: Some(rhs) }),
    {
        Action { command, op: Some(op), rhs: Some(rhs) }
    }

    /// Tests the quantity; see `action_holds`.
    pub fn evaluate(&self, amount: u128, n: u64) -> (r: bool)
        ensures
            r == action_holds(*self, amount as int, n as int),
    {
        match (self.op, self.rhs) {
            (Some(op), Some(rhs)) => {
                match self.command {
                    Command::Average => {
                        if n == 0 {
                            false
                        } else {
                            proof {
                                assert((rhs as int) * (n as int) <= 0xffff_ffff_ffff_ffffint
                                    * 0xffff_ffff_ffff_ffffint) by (nonlinear_arith)
                                    requires
                                        rhs <= 0xffff_ffff_ffff_ffffu64,
                                        n <= 0xffff_ffff_ffff_ffffu64,
                                ;
                            }
                            let threshold: u128 = (rhs as u128) * (n as u128);
                            compare_u128(op, amount, threshold)
                        }
                    },
                    _ => compare_u128(op, amount, rhs as u128),
                }
            },
            _ => amount > 0,
        }
    }

    /// True unless the test asks for exactly, or at least, one.
    pub fn should_pluralize(&self) -> (r: bool)
        ensures
            r == spec_should_pluralize(*self),
    {
        let single = match self.rhs {
            Some(n) => n == 1,
            None => false,
        };
        let singular_op = match self.op {
            Some(Operator::EqualTo) | Some(Operator::GreaterThanEqualTo) => true,
            _ => false,
        };
        !(single && singular_op)
    }
}

} // verus!
