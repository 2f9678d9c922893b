pub mod path;
pub mod fields;
pub mod meta;
pub mod moved;
pub mod owners;
pub mod buffer;
pub mod text;
pub mod errors;
pub mod scan;
pub mod builder;
pub mod config;
pub mod depth;
pub mod overlay;
pub mod flush;
pub mod document;
pub mod events;
pub mod report;
pub mod observability;
pub mod init;
pub mod confy;
pub mod watch;
pub mod debounce;
pub mod context;
pub mod plan;
pub mod codegen;
pub mod moved_places;
pub mod moved_mirror;
pub mod merge;
pub mod start;
pub mod diff;
pub mod reactive;
