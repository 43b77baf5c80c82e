//! Reads proxy access logs into a report of the HTTP requests they hold:
//! a self-contained calendar, a tolerant line extractor, and a merge of
//! repeated requests into counted records, most recent first.

pub mod calendar;
pub mod extract;
pub mod record;
pub mod report;
pub mod text;
