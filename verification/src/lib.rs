#![verifier::loop_isolation(false)]
//! A spreadsheet engine: cells with formulas, dependency tracking with cycle
//! detection, topological recalculation, undo, formula parsing, CSV and XLSX
//! export, CSV and Excel import, graph data, and the accounts, sessions and
//! sharing rules of its web front end.

pub mod cell;
pub mod spreadsheet;
pub mod text;
pub mod naming;
pub mod command;
pub mod eval;
pub mod graph;
pub mod update;
pub mod recalc;
pub mod assign;
pub mod laws;
pub mod downloader;
pub mod scroll;
pub mod display;
pub mod loader;
pub mod handlers;
pub mod graph_data;
pub mod login;
pub mod sharing;
pub mod reparse;
pub mod saved;
pub mod csv_trip;
