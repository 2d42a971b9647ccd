//! Configuration model and command construction for running `oha` load tests
//! described in a YAML file.

pub mod text;
pub mod strmap;
pub mod config;
pub mod env;
pub mod loader;
pub mod oha_command;
pub mod weights;
pub mod selector;
pub mod report;
pub mod cli;
pub mod commands;
pub mod order;
