//! Module dependency graphs for JavaScript and TypeScript projects.
//!
//! A source file is reduced to the import and export facts that its syntax
//! tree holds (`facts`), and a traversal follows the imported module paths
//! from a set of entry files until every reachable file has been analysed
//! once (`graph`). Choosing how a file is parsed rests on oxc (`dialect`).

pub mod dialect;
pub mod facts;
pub mod graph;

pub use dialect::{source_type_for, DialectError};
pub use facts::{AnalyzeError, ImportItem, ImportSpecifier, ModuleFile, SyntaxNode};
pub use graph::{Project, Traversal};
