//! Five-year financial statement analysis of listed companies: the data
//! handling behind the report, verified.

pub mod text;
pub mod xml_events;
pub mod xbrl;
pub mod report_archive;
pub mod calendar;
pub mod dated;
pub mod parse;
pub mod extract;
pub mod extract_edinet;
pub mod calculate;
