//! A prose linter: declarative rules are compiled into pattern groups and run
//! against line-aligned partitions of a text, producing an ordered stream of
//! matches with line and column positions.

pub mod engine;
pub mod lint;
pub mod opt;
pub mod prose;
pub mod regexes;
pub mod schedule;
pub mod template;
pub mod util;
