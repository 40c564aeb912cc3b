//! A process-graph execution engine: graphs of activities and AND/OR gateways, join
//! accounting, and a step-driven scheduler whose activity invocations are made by the
//! caller.
pub mod graph;
pub mod tracker;
pub mod token;
pub mod instance;
pub mod run;
