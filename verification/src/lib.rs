//! Scheduling and compilation logic of a parallel portfolio solver for MiniZinc.
pub mod ai;
pub mod args;
pub mod backup_solvers;
pub mod call_laws;
pub mod command;
pub mod config;
pub mod input;
pub mod insert_objective;
pub mod io_error;
pub mod model_parser;
pub mod mzn_to_fzn;
pub mod orchestrator;
pub mod path;
pub mod scheduler;
pub mod scheduler_laws;
pub mod solver_config;
pub mod solver_output;
pub mod sunny;
pub mod text;
pub mod text_laws;
pub mod vec_map;
