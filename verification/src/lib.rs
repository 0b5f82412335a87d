//! A verified core for a command-runner: a catalog of named groups of shell
//! steps is loaded from a JSON document, and a group's steps are executed in
//! strictly ascending lexicographic order of their names, with `cd` steps
//! updating a running working directory and the first failure stopping the run.

pub mod catalog;
pub mod cli;
pub mod engine;
pub mod json;
pub mod order;
