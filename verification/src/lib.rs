//! Validation of commit messages written in the Conventional Commits format.
pub mod cli;
pub mod config;
pub mod git;
pub mod parser;
pub mod report;
pub mod text;
pub mod validator;
pub mod properties;
