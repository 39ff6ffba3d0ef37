//! Comment and format-preserving YAML path routes.
//!
//! This is **not** "XPath but for YAML". If you need a generic object
//! route language that **doesn't** capture exact parse spans or comments,
//! then you probably want an implementation of [JSONPath] or something
//! like [jq].
//!
//! [JSONPath]: https://en.wikipedia.org/wiki/JSONPath
//! [jq]: https://jqlang.github.io/jq/

pub mod anchors;
pub mod builder;
pub mod comments;
pub mod cst;
pub mod document;
pub mod error;
pub mod laws;
pub mod limits;
pub mod links;
pub mod location;
pub mod maps;
pub mod meaning;
pub mod progress;
pub mod query;
pub mod reading;
pub mod route;
pub mod shown;
pub mod syntax;
pub mod text;
pub mod treesitter;

pub use document::{Document, Feature};
pub use error::QueryError;
pub use location::Location;
pub use query::FeatureKind;
pub use route::{Component, Route};
