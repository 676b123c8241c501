//! Collects the generic type parameters, trait bounds and lifetime parameters
//! of a declaration tree and renders them as a grouped textual summary.
//!
//! The tree itself is plain data (`ast`): whatever parser produced it hands
//! over, per declaration, a kind, a name, the generic parameters with their
//! bounds already rendered to text, and the nested declarations. A traversal
//! (`visitor`) walks that tree and records one entry per type or lifetime
//! parameter, tagged with the label of the enclosing declaration; a formatter
//! (`report`) renders the recorded entries into the two-section summary.

pub mod ast;
pub mod report;
pub mod visitor;
