//! Core of a file-name search tool.
//!
//! The library walks a directory tree to a bounded depth, groups the files it
//! finds by stem name (the file name with its final extension removed), and
//! answers queries for the group names that match a search pattern, read as a
//! case-insensitive regular expression.  A [`state::ResApp`] value holds the
//! current root, depth bound and pattern together with the derived index,
//! sorted key list and filtered key list; a presentation layer reads
//! [`state::ResApp::visible_entries`] and never recomputes anything itself.

pub mod filtering;
pub mod index;
pub mod seqs;
pub mod state;
pub mod strings;
pub mod walk;
