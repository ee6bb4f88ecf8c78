//! Renaming the episode files of a season into the canonical form
//! `S{season}E{episode}[ title].{ext}`.
//!
//! The library reads an episode number and a title out of a file name
//! (`parsing`), plans the rename (`data`), and decides for a whole directory
//! which files are candidates and what is to be done with each (`file_ops`).
//! It touches no file: the caller lists the directory and performs the
//! renames. `idempotence` proves that a second run leaves the renamed files
//! alone, and `text` holds the operations on characters that the rest is
//! built from.

pub mod data;
pub mod file_ops;
pub mod idempotence;
pub mod parsing;
pub mod text;
