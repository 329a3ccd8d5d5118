//! Parsing and validation of `key = value` configuration text in the style
//! of `sysctl.conf`, with an optional schema that declares a type per key.

pub mod conf;
pub mod error;
pub mod outcome;
pub mod schema;
pub mod text;
pub mod value;
