//! Load-test engine: the rules by which a run admits its endpoints, prepares requests, judges
//! responses and keeps its statistics.

pub mod answered;
pub mod assertion;
pub mod batch;
pub mod board;
pub mod controller;
pub mod error_stats;
pub mod extract_map;
pub mod history;
pub mod json;
pub mod jsonpath;
pub mod latency;
pub mod models;
pub mod net;
pub mod prepared;
pub mod queue;
pub mod quick_run;
pub mod reported;
pub mod request;
pub mod setup;
pub mod tally;
pub mod template;
pub mod text;
pub mod think;
pub mod worker;
