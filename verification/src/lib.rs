//! Lexi: full-text search over file names, text files, office documents, PDF
//! files and mail.
//!
//! `search` holds the search configuration, the matching of lines and the
//! decisions taken for each file; `app` holds the state of the search tabs.
//! The walking of directories, the reading of files and the drawing of the
//! window are left to the program that uses this library.

pub mod app;
pub mod boundary;
pub mod layout;
pub mod order;
pub mod outside;
pub mod report;
pub mod scan;
pub mod search;
pub mod snippet;
pub mod text;
