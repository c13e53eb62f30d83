//! Tyr: the dependency, lock-file and version logic of a small Node.js
//! package manager, each function stated by its contract.

pub mod text;
pub mod json;
pub mod table;
pub mod lockfile;
pub mod semvar;
pub mod precedence;
pub mod registry;
pub mod manifest;
pub mod installer;
