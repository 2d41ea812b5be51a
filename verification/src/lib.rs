//! Resource-bound analysis of a compact Rust IR: linear cost expressions,
//! trusted collection summaries, amortized obligations checked exactly,
//! ranking functions and recurrence solving.
use vstd::prelude::*;

pub mod alias_field_sensitive;
pub mod alias_model;
pub mod analysis;
pub mod cargo_cli;
pub mod cargo_integration;
pub mod certificate;
pub mod constraints;
pub mod diagnostics;
pub mod encoding;
pub mod explain;
pub mod expr;
pub mod frontend_cli;
pub mod generics;
pub mod interproc;
pub mod ir;
pub mod keymap;
pub mod loop_summary;
pub mod lp;
pub mod obligation;
pub mod path_conditions;
pub mod policy;
pub mod potential_text;
pub mod reading;
pub mod ranking;
pub mod recurrence;
pub mod report;
pub mod semantics;
pub mod summary;
pub mod summary_laws;
pub mod summary_mode;
pub mod terminal;
pub mod text;
pub mod transition;
pub mod uniqueness;

pub use analysis::{analyze_function, analyze_program, AnalysisOptions};
pub use certificate::{check_certificate, check_certificate_checked, Certificate, CertificateCheck};
pub use explain::{explain_certificate, explain_obligation};
pub use expr::{parse_lin_expr, ExactCheck, LinExpr, ParseLinExprError};
pub use ir::{AccessKind, CallEvent, Event, FunctionIr, FunctionSignature, LoopRegion, ProgramIr, ResourcePath};
pub use keymap::KeyMap;
pub use lp::{ConstraintOp, IlpSolution, IntegerLinearSolver, LinearProblem, SolverError, VarKind};
pub use obligation::{verify_candidate, Obligation, VerifiedObligation};
pub use recurrence::{BoundClass, BranchShape, Recurrence, SolveError, SolveRule, Solution};
pub use report::{AnalysisReport, MethodReport, Status};
pub use summary::{ResourceSummary, SummaryDb, SummaryEffect};
pub use summary_mode::{SummaryMode, SummaryTrust};

verus! {

} // verus!
