pub mod cli;
pub mod commands;
pub mod config;
pub mod db;
pub mod error;
pub mod graph;
pub mod models;
pub mod output;
pub mod paths;
pub mod scorer;
pub mod sql_log;
pub mod store;
pub mod text;
