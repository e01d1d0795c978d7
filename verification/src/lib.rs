//! Enumeration of the Pareto front of a multi-objective Boolean optimisation
//! problem by P-minimisation on top of an incremental SAT oracle.
//!
//! An [`Instance`] holds hard clauses and objectives given as weighted soft
//! clauses. A [`PMinimal`] solver built from it finds, point by point, the
//! cost tuples that no solution improves on, with one or more solutions for
//! each.

pub mod dominance;
pub mod encodings;
pub mod front;
pub mod index;
pub mod init;
pub mod litmap;
pub mod logging;
pub mod objective;
pub mod options;
pub mod oracle;
pub mod pminimal;
pub mod search;
pub mod tightening;
pub mod types;

pub use front::{NonDomPoint, ParetoFront};
pub use init::{InitError, Instance, SoftObjective};
pub use logging::{
    default_blocking_clause, BlockingClauseGen, DefaultBlocking, LogEvent, NeverTerminate, NoLog,
    Terminator, WriteSolverLog,
};
pub use objective::{Objective, ObjectiveError};
pub use options::{
    ControlSignal, EncodingError, EnumOptions, HeurImprOptions, HeurImprWhen, Limits, LoggerError,
    Options, Phase, Stats, Termination,
};
pub use oracle::{Oracle, OracleError, OracleStats, SolverResult};
pub use pminimal::{EncodingStats, PMinimal};
pub use types::{Assignment, Clause, Lit, TernaryVal, Var};
