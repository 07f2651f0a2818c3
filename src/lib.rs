pub mod context;
pub mod entry;
pub mod package;
pub mod queue;
pub mod resolution;
pub mod version;
