//! A small task-description language: a parser for its S-expressions, a printer,
//! an evaluator for declarations and expressions, and a planner that orders the
//! commands of the requested tasks.

pub mod config;
pub mod context;
pub mod decl;
pub mod error;
pub mod eval;
pub mod exec;
pub mod forms;
pub mod host;
pub mod interp;
pub mod laws;
pub mod number;
pub mod order;
pub mod parser;
pub mod printer;
pub mod reparse;
pub mod sexp;
pub mod table;
pub mod text;

pub use context::{Context, Task};
pub use error::EvalError;
pub use eval::{Value, eval_expr};
pub use exec::{Action, Plan, plan};
pub use forms::process_forms;
pub use host::{Halt, Host, Reply, Request};
pub use interp::interpolate;
pub use parser::{Parser, loads_all};
pub use printer::{dumps, dumps_pretty};
pub use sexp::{ParseError, SExp};
pub use table::Table;
