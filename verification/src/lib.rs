pub mod text;
pub mod paths;
pub mod glob;
pub mod merge;
pub mod flatten;
pub mod transfer;
pub mod rename;
pub mod find;
pub mod args;
pub mod live;
pub mod lock;
pub mod tree;
pub mod operations;
