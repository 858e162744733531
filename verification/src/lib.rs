//! Records the state of a directory tree (files with their MD5 digest and
//! modification time, and empty directories) and reports what changed
//! between two records.

pub mod cli;
pub mod info;
pub mod item;
pub mod result;
pub mod seqs;
pub mod sort;
pub mod text;
pub mod walk;
