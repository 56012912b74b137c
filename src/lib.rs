//! Parsing and aggregation of HTTP access logs, and the path expressions
//! that select which log files are read.

pub mod accesslog;
pub mod civil;
pub mod consumer;
pub mod datasource;
pub mod fetch;
pub mod histogram;
pub mod listing;
pub mod pathexpr;
pub mod s3list;
pub mod tally;
pub mod text;
