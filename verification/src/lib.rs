//! A time-series store with a small server protocol, and an engine that
//! reads database files of the SQLite format: it hands out pages, walks the
//! trees of tables and indexes, decodes records and evaluates expressions
//! over their values.

pub mod index_manager;
pub mod interpreter;
pub mod protocol;
pub mod server;
pub mod storage;

pub use interpreter::connection::Connection;
pub use interpreter::expression::Expression;
pub use interpreter::pager::DatabaseHeader;
pub use interpreter::pager::DATABASE_HEADER_SIZE;
pub use interpreter::query::SelectStatement;
