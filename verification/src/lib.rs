//! Editing of environment files that keeps what it does not change, merging
//! of directories into `PATH`, and generation of a shell snippet that sets
//! variables up.

use vstd::prelude::*;

pub mod document;
pub mod grammar;
pub mod lines;
pub mod order;
pub mod path;
pub mod quoting;
pub mod roundtrip;
pub mod script;
pub mod text;
pub mod utf8;

pub use document::{ArgumentError, EnvFile};
pub use grammar::ParseError;
pub use lines::{EnvFileLine, EnvFileLines, EnvStatement};
pub use path::PathVariable;
pub use quoting::single_quote_str_for_shell;
pub use script::EnvShellScript;
