//! Degree audits: a student's transcript checked against the rule tree of a
//! degree, major or minor.
//!
//! Evaluation is specified by the spec functions `engine::eval` and
//! `audit::spec_audit`; `audit::audit` and `engine::eval_rule` are proved to
//! compute exactly what they describe, and `laws` states and proves the
//! properties that follow.

pub mod action;
pub mod audit;
pub mod context;
pub mod course;
pub mod engine;
pub mod filter;
pub mod laws;
pub mod ledger;
pub mod pool;
pub mod result;
pub mod rules;
pub mod transcript;
