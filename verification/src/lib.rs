//! Verified core of `dedup`, a tool that indexes files and reports duplicates.
//!
//! The modules hold the decisions and computations of the tool: reading sizes
//! (`size`), identities of files (`identity`) and the mounts they live on
//! (`mounts`), what is hashed and how
//! (`hash`), finding the duplicates among the indexed files (`search`) and
//! cutting their listing into groups (`duplicate`), the rows and answers of
//! the index (`db`), the exports (`export`), the folder selection (`dialog`),
//! the commands' arguments (`cli`) and the scanner's data (`scanner`). File
//! system, database, dialog and terminal work are left to the program around
//! the library.

pub mod cli;
pub mod db;
pub mod dialog;
pub mod duplicate;
pub mod export;
pub mod hash;
pub mod identity;
pub mod mounts;
pub mod scanner;
pub mod search;
pub mod size;
pub mod text;
