//! A JSONPath query engine: a parser that compiles a path expression into an
//! ordered sequence of selectors, a matcher that resolves the selectors
//! against an in-memory JSON tree, and applicators that read, replace or
//! delete the matched nodes.

pub mod apply;
pub mod json;
pub mod laws;
pub mod matcher;
pub mod parser;
pub mod util;

pub use apply::get;
pub use apply::map_each;
pub use apply::MapAction;
pub use json::Json;
pub use matcher::PathSegment;
pub use util::to_quoted;
