pub mod crawler;
pub mod model;
pub mod options;
pub mod server;
pub mod text;
pub mod tui;
pub mod url;

pub use vstd::hash_set::StringHashSet;
