//! Layout engine for a dormitory-hygiene report.
//!
//! A flat list of violation entries is joined against three rosters, grouped
//! along two hierarchies (apartment, then department or classroom; apartment,
//! then dormitory manager), ranked, and turned into an ordered list of
//! cell-writing instructions for a spreadsheet sink.

pub mod text;
pub mod model;
pub mod sheet;
pub mod rank;
pub mod order;
pub mod group;
pub mod department;
pub mod department_table;
pub mod manager_table;
pub mod report;
pub mod enrich;
pub mod paths;
