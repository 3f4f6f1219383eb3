//! Incremental HTML parsing over a sequence of byte chunks, and breadth-first
//! traversal of the finished document tree.

pub mod builder;
pub mod common;
pub mod document;
pub mod errors;
pub mod fut;
pub mod io;

pub use common::{NodeIter, NodeStream, NodeTraverser};
pub use document::Document;
pub use fut::ParserFuture;
pub use io::ParserSink;
