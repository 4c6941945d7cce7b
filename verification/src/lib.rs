//! `richls`: the logic of a file listing tool that adds readable details and context
//! to `ls` — human-readable sizes and times, README taglines, PDF titles, ignore
//! rules, sorting, and cleanup suggestions — with its behaviour stated in contracts
//! and proved by Verus.
pub mod clean_suggest;
pub mod cli;
pub mod display;
pub mod entry;
pub mod ignore;
pub mod listing;
pub mod metadata;
pub mod pdf;
pub mod pdf_lex;
pub mod readme;
pub mod sort;
pub mod text;
