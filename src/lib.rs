//! Builds a dependency graph of code fragments around a target location in Rust source and
//! renders it as a token-budgeted context.
//!
//! - `graph`: locations, code nodes, edges, breadth-first traversal.
//! - `syntax`: block extraction, top-level symbols and constraint extraction over a parse tree.
//! - `consistency`: the linear-integer assertions handed to a solver, and laws about them.
//! - `slicer`: strategy choice and assembly of the strict slice from backend answers.
//! - `fuzzy`: the symbol index and dependency resolution of the language-model slicer.
//! - `compression`: the budgeted hierarchical renderer.
//! - `protocol`, `completion`: message framing, retry and completion-request decisions.
//! - `text`: character-level helpers.

pub mod completion;
pub mod compression;
pub mod consistency;
pub mod fuzzy;
pub mod graph;
pub mod protocol;
pub mod slicer;
pub mod syntax;
pub mod text;
