//! Opening trails: an index from chess positions to the named opening and
//! the continuation that led to them.

pub mod model;
pub mod chess;
pub mod error;
pub mod eco;
pub mod store;
pub mod walker;
pub mod codec;
pub mod asker;
pub mod query;
pub mod util;

pub use asker::Asker;
pub use error::TrailError;
