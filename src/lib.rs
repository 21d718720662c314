//! Streaming aggregation of sensor readings: actors that keep rolling averages
//! or watch thresholds, the routing of readings to them, and the topics and
//! payloads their results are published as.
pub mod text;
pub mod cli;
pub mod mqtt_cli;
pub mod worker;
pub mod kafka;
