//! A declarative randomiser for structured parameter trees.
//!
//! A document is a list of named value sets (`set`) and of entries (`file`).
//! Each entry names the files it applies to and lists edits: a path into a
//! parameter tree and an expression whose value is written there, which is a
//! constant, a draw from a range or a set, a weighted choice between
//! sub-expressions, or `original`, which leaves the target as it is.
//!
//! Reading a document (`parser`) is exact and all-or-nothing. Applying an
//! entry (`apply`) resolves each path to its targets (`resolve`), evaluates
//! the expression once per target (`eval`) and stores the value after
//! checking it against the target's kind.
use vstd::prelude::*;

pub mod apply;
pub mod ast;
pub mod error;
pub mod eval;
pub mod hashing;
pub mod laws;
pub mod node;
pub mod param;
pub mod parser;
pub mod registry;
pub mod resolve;
pub mod template;

pub use apply::{assign, assign_at};
pub use ast::{
    ChanceStmt, Expr, FloatBound, PrcEntry, PrcPath, PrcPathComponent, PrcPathSlice, RandlEntry,
    RandlFile, Range, Return, Value, ValueSet,
};
pub use error::{Error, EvalError, ParseError};
pub use eval::{select_branch, FloatHost, CHANCE_SPAN};
pub use node::{FloatLit, Node, NodeValue};
pub use param::{ParamKind, ParamList, ParamStruct};
pub use registry::Registry;
pub use resolve::{get_path_param_kind, get_path_struct};
pub use template::int_string;
