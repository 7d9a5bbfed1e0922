//! A sorted singly-linked list of integers together with the pieces around it:
//! the operation vocabulary of the worker tasks that drive the list, the
//! textual log lines that record every requested operation, and the report
//! computations over timestamped temperature readings.
//!
//! The list keeps its values in ascending order across insertions and
//! deletions; every operation is specified against the sequence of values
//! along the chain. The surrounding program supplies the concurrency
//! plumbing — worker threads sharing the list behind one lock, the log
//! channel, the logger writing the log file — and hands this library the
//! plain values each step works on: the sampled action code and operand, the
//! lines to log, the batches of readings to report on.

pub mod list;
pub mod logfmt;
pub mod report;
pub mod workload;

pub use list::LinkedList;
