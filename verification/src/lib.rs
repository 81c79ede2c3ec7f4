//! Cambrian: an adaptive genetic algorithm over hierarchical parameter sets,
//! described by a spec and evaluated by a user-supplied objective function.
//!
//! This crate holds the verified core: the model of spec and value trees,
//! spec and value validation, initial values, conversion of values to JSON
//! documents, crossover and mutation, path bookkeeping, the ranked
//! population, and the decision logic of the controller.

pub mod algorithm;
pub mod cli;
pub mod common_util;
pub mod controller;
pub mod crossover;
pub mod doc;
pub mod number_text;
pub mod path;
pub mod quantile;
pub mod error;
pub mod laws;
pub mod message;
pub mod meta;
pub mod mutation;
pub mod real_key;
pub mod selection;
pub mod seq_util;
pub mod spec;
pub mod spec_util;
pub mod sync_launch;
pub mod termination;
pub mod text;
pub mod value;
pub mod value_util;
