//! A database schema migration manager: orders paired up/down SQL scripts,
//! reconciles the migrations recorded in the database with those on disk,
//! and turns a requested operation into an ordered execution plan.

pub mod adaptor;
pub mod cli;
pub mod errors;
pub mod match_maker;
pub mod migration;
pub mod plan_builder;
