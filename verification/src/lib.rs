//! Reconstructs the final set of build properties that MSBuild would compute
//! for one configuration of a Visual-Studio-style project file.
//!
//! Two engines do the work.  The condition engine parses and evaluates the
//! small boolean expression language used in `Condition` attributes.  The
//! property resolver walks an XML tree, substitutes `$(Name)` macro
//! references, selects a single build configuration, and merges imported
//! files into one shared property table.
//!
//! The library works on plain values.  The caller supplies parsed XML trees,
//! filesystem-existence answers and an environment snapshot; everything the
//! library computes from them is verified.

pub mod condition;
pub mod decode;
pub mod paths;
pub mod resolve;
pub mod table;
pub mod text;
pub mod vcxproj;
pub mod xml;

pub use condition::{eval_condition, ConditionParser, ParseError, Term};
pub use decode::{decode_project_text, DecodeError};
pub use paths::has_trailing_slash;
pub use resolve::{resolve_variables, Diag};
pub use table::{BoolMap, StringMap};
pub use vcxproj::{EvalError, Vcxproj};
pub use xml::{FileSet, XmlElement, XmlNode};
