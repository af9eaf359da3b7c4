//! Type-driven data transformation: properties, patterns, a converter
//! registry, a cost-ordered planner and a plan executor.

pub mod builtin;
pub mod bytes;
pub mod converter;
pub mod encoding;
pub mod executor;
pub mod font;
pub mod palette;
pub mod pattern;
pub mod pki;
pub mod planner;
pub mod properties;
pub mod registry;
pub mod scan;
pub mod subtitle;
pub mod text;
pub mod workflow;
