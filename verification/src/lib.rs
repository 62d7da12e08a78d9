//! Resequencing and analysis of timestamped HTTP access-log records.

pub mod buffered_logs;
pub mod process;
pub mod processors;
pub mod reader;
pub mod reorder;
pub mod reorder_laws;
pub mod report;
