//! A verified file-copy engine for an interactive shell: command-flag
//! parsing, symbolic-link resolution over a filesystem snapshot, two-phase
//! copy planning and execution modelling, and prompt construction.

pub mod strutil;
pub mod assoc;
pub mod flags;
pub mod path;
pub mod fsmodel;
pub mod plan;
pub mod resolve;
pub mod cancel;
pub mod copier;
pub mod executor;
pub mod prompt;
