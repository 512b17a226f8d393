//! A scripted HTTP/3 probing client: the action-scheduling engine, the
//! per-stream response aggregator and the decisions of the session loop.

pub mod frame;
pub mod actions;
pub mod streams;
pub mod client;
